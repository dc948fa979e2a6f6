//! The precise duration decomposer.
//!
//! `precisedelta_td` cascades a duration's absolute value through the eight
//! time units from years down to microseconds with quotient/remainder steps,
//! forces suppressed units to zero (rolling their value into the next step),
//! rounds the whole remaining value at the minimum displayed unit by the
//! caller's format directive, performs one rounding-driven carry pass, and
//! joins the non-zero unit phrases into an Oxford-style sentence.
//!
//! All arithmetic is exact: a fractional minimum-unit value is held as an
//! integer numerator scaled by a power of ten given by the format.

use vstd::arithmetic::div_mod::{
    lemma_div_is_ordered, lemma_div_nonincreasing, lemma_fundamental_div_mod,
    lemma_multiply_divide_lt,
};
use vstd::prelude::*;

use crate::i18n::{spec_gettext, spec_ngettext, Translations};
use crate::number::group_thousands;
use crate::text::{
    is_digit_char, lemma_spec_dec_digits, padded_dec, replace_first_str, replace_str,
    spec_comma_join, spec_dec, spec_group, spec_padded, spec_replace, spec_replace_first,
    u128_to_dec,
};
use crate::time::{spec_unit_from_name, TimeDelta, Unit};

verus! {

// ---------------------------------------------------------------------------
// Format directives
// ---------------------------------------------------------------------------
/// A minimal printf-like precision directive: fixed-point with a number of
/// fractional digits, or truncation to an integer.
#[derive(Clone, Copy, Debug)]
pub enum FmtKind {
    Truncate,
    Fixed(u32),
}

/// Whether the format string mentions an integer conversion.
pub open spec fn spec_has_di(s: Seq<char>) -> bool {
    exists|i: int| 0 <= i < s.len() && ((#[trigger] s[i]) == 'd' || s[i] == 'i')
}

/// Index of the first occurrence of `c` in `s` at or after `from`
/// (`s.len()` when there is none).
pub open spec fn spec_find(s: Seq<char>, c: char, from: int) -> int
    decreases s.len() - from,
{
    if from < 0 || from >= s.len() {
        s.len() as int
    } else if s[from] == c {
        from
    } else {
        spec_find(s, c, from + 1)
    }
}

/// Value of the digit run `s[from..to]`.
pub open spec fn spec_digits_val(s: Seq<char>, from: int, to: int) -> int
    decreases to - from,
{
    if to <= from {
        0
    } else {
        spec_digits_val(s, from, to - 1) * 10 + (s[to - 1] as u32 - 48)
    }
}

/// The directive a format string denotes.  A "d" or "i" anywhere means
/// truncation; otherwise the digits between the first "." and the first "f"
/// after it give the fixed-point precision, clamped to the nineteen digits a
/// 64-bit scaled fraction can hold; anything unparsable falls back to
/// truncation.
pub open spec fn spec_fmt_kind(f: Seq<char>) -> FmtKind {
    if spec_has_di(f) {
        FmtKind::Truncate
    } else {
        let dot = spec_find(f, '.', 0);
        if dot >= f.len() {
            FmtKind::Truncate
        } else {
            let fpos = spec_find(f, 'f', dot + 1);
            if fpos >= f.len() || fpos == dot + 1 {
                FmtKind::Truncate
            } else if !(forall|i: int| dot + 1 <= i < fpos ==> is_digit_char(#[trigger] f[i])) {
                FmtKind::Truncate
            } else {
                let v = spec_digits_val(f, dot + 1, fpos);
                if v > 19 {
                    FmtKind::Fixed(19)
                } else {
                    FmtKind::Fixed(v as u32)
                }
            }
        }
    }
}

/// Ten to the `n`th power.
pub open spec fn spec_pow10(n: int) -> int
    decreases n,
{
    if n <= 0 {
        1
    } else {
        10 * spec_pow10(n - 1)
    }
}

fn find_char(s: &str, c: char, from: usize) -> (r: usize)
    requires
        from <= s@.len(),
    ensures
        r as int == spec_find(s@, c, from as int),
        from <= r <= s@.len(),
    decreases s@.len() - from,
{
    let n = s.unicode_len();
    if from >= n {
        return n;
    }
    if s.get_char(from) == c {
        from
    } else {
        find_char(s, c, from + 1)
    }
}

fn has_di(s: &str) -> (r: bool)
    ensures
        r == spec_has_di(s@),
{
    let n = s.unicode_len();
    let mut i: usize = 0;
    while i < n
        invariant
            n == s@.len(),
            i <= n,
            forall|k: int| 0 <= k < i ==> !((#[trigger] s@[k]) == 'd' || s@[k] == 'i'),
        decreases n - i,
    {
        let ch = s.get_char(i);
        if ch == 'd' || ch == 'i' {
            return true;
        }
        i += 1;
    }
    false
}

/// Parse a format string into its directive.
fn parse_fmt(f: &str) -> (r: FmtKind)
    ensures
        r == spec_fmt_kind(f@),
        r matches FmtKind::Fixed(n) ==> n <= 19,
{
    if has_di(f) {
        return FmtKind::Truncate;
    }
    let n = f.unicode_len();
    let dot = find_char(f, '.', 0);
    if dot >= n {
        return FmtKind::Truncate;
    }
    let fpos = find_char(f, 'f', dot + 1);
    if fpos >= n || fpos == dot + 1 {
        return FmtKind::Truncate;
    }
    let mut i: usize = dot + 1;
    let mut acc: u32 = 0;
    while i < fpos
        invariant
            !spec_has_di(f@),
            n == f@.len(),
            dot as int == spec_find(f@, '.', 0),
            dot < n,
            fpos as int == spec_find(f@, 'f', dot as int + 1),
            fpos < n,
            fpos > dot + 1,
            dot + 1 <= i <= fpos,
            fpos <= f@.len(),
            forall|k: int| dot + 1 <= k < i ==> is_digit_char(#[trigger] f@[k]),
            spec_digits_val(f@, dot + 1, i as int) <= 19 ==> acc as int == spec_digits_val(
                f@,
                dot + 1,
                i as int,
            ),
            spec_digits_val(f@, dot + 1, i as int) > 19 ==> acc == 20,
            acc <= 20,
            spec_digits_val(f@, dot + 1, i as int) >= 0,
        decreases fpos - i,
    {
        let ch = f.get_char(i);
        let v = ch as u32;
        if v < 48 || v > 57 {
            proof {
                assert(!is_digit_char(f@[i as int]));
                assert(!(forall|k: int| dot + 1 <= k < fpos ==> is_digit_char(#[trigger] f@[k])));
            }
            return FmtKind::Truncate;
        }
        let d = v - 48;
        acc = if acc <= 19 {
            let a2 = acc * 10 + d;
            if a2 > 19 {
                20
            } else {
                a2
            }
        } else {
            20
        };
        i += 1;
    }
    if acc > 19 {
        FmtKind::Fixed(19)
    } else {
        FmtKind::Fixed(acc)
    }
}

/// Ten to the `n`th power, executable.
fn pow10(n: u32) -> (r: u64)
    requires
        n <= 19,
    ensures
        r as int == spec_pow10(n as int),
        1 <= r <= 10_000_000_000_000_000_000,
{
    proof {
        reveal_with_fuel(spec_pow10, 21);
    }
    match n {
        0 => 1,
        1 => 10,
        2 => 100,
        3 => 1_000,
        4 => 10_000,
        5 => 100_000,
        6 => 1_000_000,
        7 => 10_000_000,
        8 => 100_000_000,
        9 => 1_000_000_000,
        10 => 10_000_000_000,
        11 => 100_000_000_000,
        12 => 1_000_000_000_000,
        13 => 10_000_000_000_000,
        14 => 100_000_000_000_000,
        15 => 1_000_000_000_000_000,
        16 => 10_000_000_000_000_000,
        17 => 100_000_000_000_000_000,
        18 => 1_000_000_000_000_000_000,
        _ => 10_000_000_000_000_000_000,
    }
}

// ---------------------------------------------------------------------------
// Suppression sets
// ---------------------------------------------------------------------------
/// The character sequences of a list of names.
pub open spec fn spec_name_views(ss: Seq<&str>) -> Seq<Seq<char>> {
    ss.map_values(|x: &str| x@)
}

/// Whether some name in the list denotes `u` (unknown names say nothing).
pub open spec fn spec_suppressed0(names: Seq<Seq<char>>, u: Unit) -> bool {
    exists|i: int| 0 <= i < names.len() && spec_unit_from_name(#[trigger] names[i]) == Some(u)
}

/// The suppression set resolved from a name list, one flag per rank.
pub open spec fn spec_sup0(names: Seq<Seq<char>>) -> Seq<bool> {
    Seq::new(8, |k: int| spec_suppressed0(names, Unit::spec_from_rank(k)))
}

/// The suppression set extended with every unit strictly below `mu`.
pub open spec fn spec_sup_lower(mu: Unit, sup: Seq<bool>) -> Seq<bool> {
    Seq::new(8, |k: int| sup[k] || k < mu.rank())
}

fn any_name_is(names: &[&str], u: Unit) -> (r: bool)
    ensures
        r == spec_suppressed0(spec_name_views(names@), u),
{
    let n = names.len();
    let mut i: usize = 0;
    while i < n
        invariant
            n == names@.len(),
            i <= n,
            forall|j: int|
                0 <= j < i ==> spec_unit_from_name((#[trigger] names@[j])@) != Some(u),
        decreases n - i,
    {
        match Unit::from_str(names[i]) {
            Ok(w) => {
                if w == u {
                    proof {
                        assert(spec_name_views(names@)[i as int] == names@[i as int]@);
                    }
                    return true;
                }
            },
            Err(_) => {},
        }
        i += 1;
    }
    proof {
        assert forall|j: int| 0 <= j < spec_name_views(names@).len() implies spec_unit_from_name(
            #[trigger] spec_name_views(names@)[j],
        ) != Some(u) by {
            assert(spec_name_views(names@)[j] == names@[j]@);
        }
    }
    false
}

/// Resolve a name list into a suppression set.
fn parse_suppress(names: &[&str]) -> (r: Vec<bool>)
    ensures
        r@.len() == 8,
        r@ == spec_sup0(spec_name_views(names@)),
{
    let mut out: Vec<bool> = Vec::new();
    let mut k: u8 = 0;
    while k < 8
        invariant
            out@.len() == k as int,
            k <= 8,
            forall|j: int|
                0 <= j < k ==> out@[j] == spec_suppressed0(
                    spec_name_views(names@),
                    Unit::spec_from_rank(j),
                ),
        decreases 8 - k,
    {
        let u = Unit::from_rank(k);
        let b = any_name_is(names, u);
        out.push(b);
        k += 1;
    }
    proof {
        assert(out@ =~= spec_sup0(spec_name_views(names@)));
    }
    out
}

/// The smallest non-suppressed unit at or above `mu`, walking upward.
pub open spec fn spec_first_unsup(sup: Seq<bool>, r: int) -> Option<Unit>
    decreases 8 - r,
{
    if r >= 8 || r < 0 {
        None
    } else if !sup[r] {
        Some(Unit::spec_from_rank(r))
    } else {
        spec_first_unsup(sup, r + 1)
    }
}

/// The effective minimum unit: the requested one when not suppressed, else
/// the first non-suppressed unit above it.
pub open spec fn spec_suitable(mu: Unit, sup: Seq<bool>) -> Option<Unit> {
    if !sup[mu.rank()] {
        Some(mu)
    } else {
        spec_first_unsup(sup, mu.rank() + 1)
    }
}

/// Find a minimum unit that is not suppressed, or report that none exists.
fn suitable_minimum_unit(mu: Unit, sup: &Vec<bool>) -> (r: Result<Unit, String>)
    requires
        sup@.len() == 8,
    ensures
        match r {
            Ok(u) => spec_suitable(mu, sup@) == Some(u),
            Err(e) => spec_suitable(mu, sup@) is None && e@
                == "Minimum unit is suppressed and no suitable replacement was found"@,
        },
{
    let mr = mu.rank_val();
    if !sup[mr as usize] {
        return Ok(mu);
    }
    let mut k: u8 = mr + 1;
    while k < 8
        invariant
            sup@.len() == 8,
            mr < 8,
            mr as int == mu.rank(),
            sup@[mu.rank()],
            mr + 1 <= k <= 8,
            spec_first_unsup(sup@, mr as int + 1) == spec_first_unsup(sup@, k as int),
        decreases 8 - k,
    {
        if !sup[k as usize] {
            let u = Unit::from_rank(k);
            proof {
                assert(spec_first_unsup(sup@, k as int) == Some(Unit::spec_from_rank(k as int)));
            }
            return Ok(u);
        }
        k += 1;
    }
    Err(String::from_str("Minimum unit is suppressed and no suitable replacement was found"))
}

/// Extend a suppression set with every unit strictly below `mu`.
fn suppress_lower_units(mu: Unit, sup: &Vec<bool>) -> (r: Vec<bool>)
    requires
        sup@.len() == 8,
    ensures
        r@.len() == 8,
        r@ == spec_sup_lower(mu, sup@),
{
    let mr = mu.rank_val();
    let mut out: Vec<bool> = Vec::new();
    let mut k: u8 = 0;
    while k < 8
        invariant
            sup@.len() == 8,
            mr as int == mu.rank(),
            out@.len() == k as int,
            k <= 8,
            forall|j: int| 0 <= j < k ==> out@[j] == (sup@[j] || j < mu.rank()),
        decreases 8 - k,
    {
        let b = sup[k as usize] || k < mr;
        out.push(b);
        proof {
            assert(out@[k as int] == b);
            assert(b == (sup@[k as int] || (k as int) < mu.rank()));
        }
        k += 1;
    }
    proof {
        assert(out@ =~= spec_sup_lower(mu, sup@));
    }
    out
}

// ---------------------------------------------------------------------------
// The cascade
// ---------------------------------------------------------------------------
/// The eight unit quantities of a decomposition, with the minimum unit's
/// fractional part held as a numerator scaled by the format's power of ten.
pub ghost struct DecompModel {
    pub years: int,
    pub months: int,
    pub days: int,
    pub hours: int,
    pub minutes: int,
    pub seconds: int,
    pub millis: int,
    pub micros: int,
    pub frac: int,
}

/// Terminal rounding at the minimum unit: the whole remaining value `p/q` as
/// a whole part and a fraction scaled by `pow`, rounded half-to-even, or
/// truncated.
pub open spec fn spec_term(p: int, q: int, pow: int, tr: bool) -> (int, int) {
    if tr {
        (p / q, 0)
    } else {
        let w = p / q;
        let rem = p % q;
        let num = rem * pow;
        let fq = num / q;
        let fr = num % q;
        let f = if 2 * fr < q {
            fq
        } else if 2 * fr > q {
            fq + 1
        } else if (w * pow + fq) % 2 == 0 {
            fq
        } else {
            fq + 1
        };
        if f == pow {
            (w + 1, 0)
        } else {
            (w, f)
        }
    }
}

/// One cascade step over `v` with divisor `div`: the whole rounded value at
/// the minimum unit (no remainder passes on), zero for a suppressed unit
/// (the full value rolls forward), else floor quotient and remainder.
pub open spec fn spec_step(v: int, div: int, is_min: bool, is_sup: bool, tr: bool, pow: int) -> (
    int,
    int,
    int,
) {
    if is_min {
        let t = spec_term(v, div, pow, tr);
        (t.0, t.1, 0)
    } else if is_sup {
        (0, 0, v)
    } else {
        (v / div, 0, v % div)
    }
}

/// The months step divides the day remainder by 30.5, working on doubled
/// values to stay integral: the quotient and the exact day remainder of the
/// division, the remainder counted in half-days so that nothing is lost
/// (the next step converts half-days to seconds exactly).
pub open spec fn spec_step_months(v: int, is_min: bool, is_sup: bool, tr: bool, pow: int) -> (
    int,
    int,
    int,
) {
    if is_min {
        let t = spec_term(2 * v, 61, pow, tr);
        (t.0, t.1, 0)
    } else if is_sup {
        (0, 0, 2 * v)
    } else {
        let q = (2 * v) / 61;
        (q, 0, 2 * v - 61 * q)
    }
}

/// The full cascade over a non-negative normalized duration: years and
/// months divide the day count (the months step passes its remainder on in
/// half-days); days, hours and minutes divide the combined second count;
/// seconds and below divide the combined microsecond count.
pub open spec fn spec_cascade(
    d: int,
    s: int,
    us: int,
    mu: Unit,
    sup: Seq<bool>,
    tr: bool,
    pow: int,
) -> DecompModel {
    let ty = spec_step(d, 365, mu == Unit::Years, sup[7], tr, pow);
    let tm = spec_step_months(ty.2, mu == Unit::Months, sup[6], tr, pow);
    let s1 = tm.2 * 43200 + s;
    let td = spec_step(s1, 86400, mu == Unit::Days, sup[5], tr, pow);
    let th = spec_step(td.2, 3600, mu == Unit::Hours, sup[4], tr, pow);
    let tmin = spec_step(th.2, 60, mu == Unit::Minutes, sup[3], tr, pow);
    let us1 = tmin.2 * 1_000_000 + us;
    let ts = spec_step(us1, 1_000_000, mu == Unit::Seconds, sup[2], tr, pow);
    let tms = spec_step(ts.2, 1000, mu == Unit::Milliseconds, sup[1], tr, pow);
    let tus = spec_step(tms.2, 1, mu == Unit::Microseconds, sup[0], tr, pow);
    DecompModel {
        years: ty.0,
        months: tm.0,
        days: td.0,
        hours: th.0,
        minutes: tmin.0,
        seconds: ts.0,
        millis: tms.0,
        micros: tus.0,
        frac: match mu {
            Unit::Years => ty.1,
            Unit::Months => tm.1,
            Unit::Days => td.1,
            Unit::Hours => th.1,
            Unit::Minutes => tmin.1,
            Unit::Seconds => ts.1,
            Unit::Milliseconds => tms.1,
            Unit::Microseconds => tus.1,
        },
    }
}

/// The single carry pass after terminal rounding: each unit that reached its
/// own modulus hands one step to the next-larger unit, but only when the
/// receiving unit is not suppressed.
pub open spec fn spec_carry(m: DecompModel, sup: Seq<bool>) -> DecompModel {
    let m1 = if m.millis >= 1000 && !sup[2] {
        DecompModel { millis: m.millis - 1000, seconds: m.seconds + 1, ..m }
    } else {
        m
    };
    let m2 = if m1.seconds >= 60 && !sup[3] {
        DecompModel { seconds: m1.seconds - 60, minutes: m1.minutes + 1, ..m1 }
    } else {
        m1
    };
    let m3 = if m2.minutes >= 60 && !sup[4] {
        DecompModel { minutes: m2.minutes - 60, hours: m2.hours + 1, ..m2 }
    } else {
        m2
    };
    let m4 = if m3.hours >= 24 && !sup[5] {
        DecompModel { hours: m3.hours - 24, days: m3.days + 1, ..m3 }
    } else {
        m3
    };
    let m5 = if m4.days >= 31 && !sup[6] {
        DecompModel { days: m4.days - 31, months: m4.months + 1, ..m4 }
    } else {
        m4
    };
    if m5.months >= 12 && !sup[7] {
        DecompModel { months: m5.months - 12, years: m5.years + 1, ..m5 }
    } else {
        m5
    }
}

/// Executable decomposition state.
pub struct Decomp {
    pub years: u128,
    pub months: u128,
    pub days: u128,
    pub hours: u128,
    pub minutes: u128,
    pub seconds: u128,
    pub millis: u128,
    pub micros: u128,
    pub frac: u64,
}

/// The mathematical view of an executable decomposition.
pub open spec fn model(d: Decomp) -> DecompModel {
    DecompModel {
        years: d.years as int,
        months: d.months as int,
        days: d.days as int,
        hours: d.hours as int,
        minutes: d.minutes as int,
        seconds: d.seconds as int,
        millis: d.millis as int,
        micros: d.micros as int,
        frac: d.frac as int,
    }
}

pub const V_MAX: u128 = 1_000_000_000_000_000_000_000_000_000_000;

fn step(v: u128, div: u64, is_min: bool, is_sup: bool, tr: bool, pow: u64) -> (r: (u128, u64, u128))
    requires
        1 <= div <= 1_000_000,
        1 <= pow <= 10_000_000_000_000_000_000,
        v <= V_MAX,
    ensures
        ({
            let m = spec_step(v as int, div as int, is_min, is_sup, tr, pow as int);
            r.0 as int == m.0 && r.1 as int == m.1 && r.2 as int == m.2
        }),
        r.0 <= v + 1,
        r.2 <= v,
{
    let dv = div as u128;
    if is_min {
        if tr {
            proof {
                lemma_div_nonincreasing(v as int, dv as int);
            }
            (v / dv, 0, 0)
        } else {
            let w = v / dv;
            let rem = v % dv;
            proof {
                lemma_fundamental_div_mod(v as int, dv as int);
                lemma_div_nonincreasing(v as int, dv as int);
                assert(rem * pow < dv * pow && dv * pow <= 1_000_000 * 10_000_000_000_000_000_000)
                    by (nonlinear_arith)
                    requires
                        rem < dv,
                        dv <= 1_000_000,
                        1 <= pow <= 10_000_000_000_000_000_000,
                ;
            }
            let num = rem * pow as u128;
            let fq = num / dv;
            let fr = num % dv;
            proof {
                lemma_multiply_divide_lt(num as int, dv as int, pow as int);
                lemma_fundamental_div_mod(num as int, dv as int);
            }
            // the parity of the whole scaled result w * pow + fq decides a
            // tie; it is computed modulo two to avoid the wide product
            let tie_even = ((w % 2) * ((pow as u128) % 2) + fq % 2) % 2 == 0;
            proof {
                let a = (w as int % 2) * (pow as int % 2);
                vstd::arithmetic::div_mod::lemma_mul_mod_noop(w as int, pow as int, 2);
                vstd::arithmetic::div_mod::lemma_add_mod_noop(a, fq as int, 2);
                vstd::arithmetic::div_mod::lemma_add_mod_noop(w as int * pow as int, fq as int, 2);
                vstd::arithmetic::div_mod::lemma_add_mod_noop_right(a, fq as int, 2);
                assert(tie_even == ((w as int * pow as int + fq as int) % 2 == 0));
            }
            let f = if 2 * fr < dv {
                fq
            } else if 2 * fr > dv {
                fq + 1
            } else if tie_even {
                fq
            } else {
                fq + 1
            };
            if f == pow as u128 {
                (w + 1, 0, 0)
            } else {
                (w, f as u64, 0)
            }
        }
    } else if is_sup {
        (0, 0, v)
    } else {
        let q = v / dv;
        let r2 = v % dv;
        proof {
            lemma_fundamental_div_mod(v as int, dv as int);
            lemma_div_nonincreasing(v as int, dv as int);
            assert(dv as int * (v as int / dv as int) >= 0) by (nonlinear_arith)
                requires
                    dv as int >= 1,
                    v as int / dv as int >= 0,
            ;
            assert(q as int >= 0) by {
                vstd::arithmetic::div_mod::lemma_div_pos_is_pos(v as int, dv as int);
            }
        }
        (q, 0, r2)
    }
}

fn step_months(v: u128, is_min: bool, is_sup: bool, tr: bool, pow: u64) -> (r: (u128, u64, u128))
    requires
        1 <= pow <= 10_000_000_000_000_000_000,
        v <= 0x7fff_ffff_ffff_ffff,
    ensures
        ({
            let m = spec_step_months(v as int, is_min, is_sup, tr, pow as int);
            r.0 as int == m.0 && r.1 as int == m.1 && r.2 as int == m.2
        }),
        r.0 <= v + 1,
        r.2 <= 2 * v,
{
    if is_min {
        let t = step(2 * v, 61, true, false, tr, pow);
        proof {
            lemma_div_nonincreasing(2 * v as int, 61);
            lemma_div_is_ordered(2 * v as int, 2 * v as int + 1, 61);
        }
        assert(t.0 <= v + 1) by {
            assert((2 * v as int) / 61 <= v as int) by (nonlinear_arith)
                requires
                    v as int >= 0,
            ;
        }
        (t.0, t.1, 0)
    } else if is_sup {
        (0, 0, 2 * v)
    } else {
        let q = (2 * v) / 61;
        proof {
            lemma_fundamental_div_mod(2 * v as int, 61);
            vstd::arithmetic::div_mod::lemma_div_pos_is_pos(2 * v as int, 61);
        }
        assert(q <= v) by {
            assert((2 * v as int) / 61 <= v as int) by (nonlinear_arith)
                requires
                    v as int >= 0,
            ;
        }
        (q, 0, 2 * v - 61 * q)
    }
}

/// Run the cascade over the absolute value's normalized fields.
#[verifier::rlimit(80)]
fn cascade(d: u64, s: u64, us: u64, mu: Unit, sup: &Vec<bool>, tr: bool, pow: u64) -> (r: Decomp)
    requires
        d <= 0x7fff_ffff_ffff_ffff,
        s < 86400,
        us < 1_000_000,
        sup@.len() == 8,
        1 <= pow <= 10_000_000_000_000_000_000,
    ensures
        model(r) == spec_cascade(d as int, s as int, us as int, mu, sup@, tr, pow as int),
        r.years <= V_MAX,
        r.months <= V_MAX,
        r.days <= V_MAX,
        r.hours <= V_MAX,
        r.minutes <= V_MAX,
        r.seconds <= V_MAX,
        r.millis <= V_MAX,
        r.micros <= V_MAX,
{
    let ty = step(d as u128, 365, mu == Unit::Years, sup[7], tr, pow);
    let tm = step_months(ty.2, mu == Unit::Months, sup[6], tr, pow);
    let s1 = tm.2 * 43200 + s as u128;
    let td = step(s1, 86400, mu == Unit::Days, sup[5], tr, pow);
    let th = step(td.2, 3600, mu == Unit::Hours, sup[4], tr, pow);
    let tmin = step(th.2, 60, mu == Unit::Minutes, sup[3], tr, pow);
    let us1 = tmin.2 * 1_000_000 + us as u128;
    let ts = step(us1, 1_000_000, mu == Unit::Seconds, sup[2], tr, pow);
    let tms = step(ts.2, 1000, mu == Unit::Milliseconds, sup[1], tr, pow);
    let tus = step(tms.2, 1, mu == Unit::Microseconds, sup[0], tr, pow);
    let frac: u64 = match mu {
        Unit::Years => ty.1,
        Unit::Months => tm.1,
        Unit::Days => td.1,
        Unit::Hours => th.1,
        Unit::Minutes => tmin.1,
        Unit::Seconds => ts.1,
        Unit::Milliseconds => tms.1,
        Unit::Microseconds => tus.1,
    };
    Decomp {
        years: ty.0,
        months: tm.0,
        days: td.0,
        hours: th.0,
        minutes: tmin.0,
        seconds: ts.0,
        millis: tms.0,
        micros: tus.0,
        frac,
    }
}

/// Apply the single carry pass.
fn carry(m: Decomp, sup: &Vec<bool>) -> (r: Decomp)
    requires
        sup@.len() == 8,
        m.years <= V_MAX,
        m.months <= V_MAX,
        m.days <= V_MAX,
        m.hours <= V_MAX,
        m.minutes <= V_MAX,
        m.seconds <= V_MAX,
        m.millis <= V_MAX,
        m.micros <= V_MAX,
    ensures
        model(r) == spec_carry(model(m), sup@),
        r.years <= V_MAX + 1,
        r.months <= V_MAX + 1,
        r.days <= V_MAX + 1,
        r.hours <= V_MAX + 1,
        r.minutes <= V_MAX + 1,
        r.seconds <= V_MAX + 1,
        r.millis <= V_MAX + 1,
        r.micros <= V_MAX + 1,
{
    let mut x = m;
    if x.millis >= 1000 && !sup[2] {
        x.millis = x.millis - 1000;
        x.seconds = x.seconds + 1;
    }
    if x.seconds >= 60 && !sup[3] {
        x.seconds = x.seconds - 60;
        x.minutes = x.minutes + 1;
    }
    if x.minutes >= 60 && !sup[4] {
        x.minutes = x.minutes - 60;
        x.hours = x.hours + 1;
    }
    if x.hours >= 24 && !sup[5] {
        x.hours = x.hours - 24;
        x.days = x.days + 1;
    }
    if x.days >= 31 && !sup[6] {
        x.days = x.days - 31;
        x.months = x.months + 1;
    }
    if x.months >= 12 && !sup[7] {
        x.months = x.months - 12;
        x.years = x.years + 1;
    }
    x
}

// ---------------------------------------------------------------------------
// Rendering
// ---------------------------------------------------------------------------
/// The count handed to the plural rule: two for a value strictly between
/// one and two, else the whole part, saturated at the signed 64-bit
/// maximum that the pluralization interface takes.
pub open spec fn spec_plural_count(w: int, f: int) -> int {
    if w == 1 && f > 0 {
        2
    } else if w > 0x7fff_ffff_ffff_ffff {
        0x7fff_ffff_ffff_ffff
    } else {
        w
    }
}

/// One unit's phrase: the plural template chosen for the count, with "%d"
/// replaced by the value — a scaled decimal fraction at the minimum unit
/// when its value is non-integral, a grouped numeral for years, a plain
/// numeral otherwise.
pub open spec fn spec_phrase(
    t: Translations,
    sing: Seq<char>,
    plur: Seq<char>,
    w: int,
    f: int,
    nd: int,
    is_min: bool,
    is_years: bool,
    sep: Seq<char>,
) -> Seq<char> {
    let tpl = spec_ngettext(t, sing, plur, spec_plural_count(w, f));
    if is_min && f > 0 {
        spec_replace(tpl, "%d"@, spec_dec(w) + seq!['.'] + spec_padded(f, nd))
    } else if is_years {
        spec_replace(spec_replace(tpl, "%d"@, "%s"@), "%s"@, spec_group(spec_dec(w), sep))
    } else {
        spec_replace(tpl, "%d"@, spec_dec(w))
    }
}

/// Append one unit's phrase when it is shown: a unit is shown when its
/// value is non-zero, or when nothing was emitted yet and it is the
/// minimum unit (so even a zero duration gets one phrase).
pub open spec fn spec_emit(
    acc: Seq<Seq<char>>,
    t: Translations,
    sing: Seq<char>,
    plur: Seq<char>,
    w: int,
    f: int,
    nd: int,
    is_min: bool,
    is_years: bool,
    sep: Seq<char>,
) -> Seq<Seq<char>> {
    if w > 0 || f > 0 || (acc.len() == 0 && is_min) {
        acc.push(spec_phrase(t, sing, plur, w, f, nd, is_min, is_years, sep))
    } else {
        acc
    }
}

/// The phrases of a decomposition, from years down to the minimum unit.
pub open spec fn spec_texts(
    t: Translations,
    m: DecompModel,
    mu: Unit,
    nd: int,
    sep: Seq<char>,
) -> Seq<Seq<char>> {
    let r = mu.rank();
    let fr = m.frac;
    let a0 = Seq::<Seq<char>>::empty();
    let a1 = spec_emit(
        a0,
        t,
        "%d year"@,
        "%d years"@,
        m.years,
        if r == 7 {
            fr
        } else {
            0
        },
        nd,
        r == 7,
        true,
        sep,
    );
    let a2 = if r <= 6 {
        spec_emit(
            a1,
            t,
            "%d month"@,
            "%d months"@,
            m.months,
            if r == 6 {
                fr
            } else {
                0
            },
            nd,
            r == 6,
            false,
            sep,
        )
    } else {
        a1
    };
    let a3 = if r <= 5 {
        spec_emit(
            a2,
            t,
            "%d day"@,
            "%d days"@,
            m.days,
            if r == 5 {
                fr
            } else {
                0
            },
            nd,
            r == 5,
            false,
            sep,
        )
    } else {
        a2
    };
    let a4 = if r <= 4 {
        spec_emit(
            a3,
            t,
            "%d hour"@,
            "%d hours"@,
            m.hours,
            if r == 4 {
                fr
            } else {
                0
            },
            nd,
            r == 4,
            false,
            sep,
        )
    } else {
        a3
    };
    let a5 = if r <= 3 {
        spec_emit(
            a4,
            t,
            "%d minute"@,
            "%d minutes"@,
            m.minutes,
            if r == 3 {
                fr
            } else {
                0
            },
            nd,
            r == 3,
            false,
            sep,
        )
    } else {
        a4
    };
    let a6 = if r <= 2 {
        spec_emit(
            a5,
            t,
            "%d second"@,
            "%d seconds"@,
            m.seconds,
            if r == 2 {
                fr
            } else {
                0
            },
            nd,
            r == 2,
            false,
            sep,
        )
    } else {
        a5
    };
    let a7 = if r <= 1 {
        spec_emit(
            a6,
            t,
            "%d millisecond"@,
            "%d milliseconds"@,
            m.millis,
            if r == 1 {
                fr
            } else {
                0
            },
            nd,
            r == 1,
            false,
            sep,
        )
    } else {
        a6
    };
    if r == 0 {
        spec_emit(a7, t, "%d microsecond"@, "%d microseconds"@, m.micros, fr, nd, true, false, sep)
    } else {
        a7
    }
}

/// The final sentence: nothing for no phrases, the sole phrase alone, and
/// otherwise all but the last joined by ", " and substituted with the last
/// into the locale's "%s and %s" template, one "%s" at a time.
pub open spec fn spec_join(t: Translations, texts: Seq<Seq<char>>) -> Seq<char> {
    if texts.len() == 0 {
        Seq::<char>::empty()
    } else if texts.len() == 1 {
        texts[0]
    } else {
        let head = spec_comma_join(texts.take(texts.len() - 1));
        let tail = texts.last();
        spec_replace_first(
            spec_replace_first(spec_gettext(t, "%s and %s"@), "%s"@, head),
            "%s"@,
            tail,
        )
    }
}

fn phrase(
    t: &Translations,
    sing: &str,
    plur: &str,
    w: u128,
    f: u64,
    nd: u32,
    is_min: bool,
    is_years: bool,
) -> (r: String)
    requires
        nd <= 19,
    ensures
        r@ == spec_phrase(*t, sing@, plur@, w as int, f as int, nd as int, is_min, is_years,
            t.sep()),
{
    proof {
        reveal_strlit("%d");
        reveal_strlit("%s");
        reveal_strlit(".");
    }
    let n: i64 = if w == 1 && f > 0 {
        2
    } else if w > 0x7fff_ffff_ffff_ffff {
        0x7fff_ffff_ffff_ffff
    } else {
        w as i64
    };
    let tpl = t.ngettext(sing, plur, n);
    if is_min && f > 0 {
        let mut num = u128_to_dec(w);
        num.append(".");
        let padded = padded_dec(f, nd);
        num.append(padded.as_str());
        proof {
            assert(num@ =~= spec_dec(w as int) + seq!['.'] + spec_padded(f as int, nd as int));
        }
        replace_str(tpl.as_str(), "%d", num.as_str())
    } else if is_years {
        let t1 = replace_str(tpl.as_str(), "%d", "%s");
        let num = u128_to_dec(w);
        proof {
            lemma_spec_dec_digits(w as int);
        }
        let grouped = group_thousands(num.as_str(), t.thousands_sep.as_str());
        replace_str(t1.as_str(), "%s", grouped.as_str())
    } else {
        let num = u128_to_dec(w);
        replace_str(tpl.as_str(), "%d", num.as_str())
    }
}

fn emit_unit(
    texts: &mut Vec<String>,
    t: &Translations,
    sing: &str,
    plur: &str,
    w: u128,
    f: u64,
    nd: u32,
    is_min: bool,
    is_years: bool,
)
    requires
        nd <= 19,
    ensures
        final(texts).deep_view() == spec_emit(
            old(texts).deep_view(),
            *t,
            sing@,
            plur@,
            w as int,
            f as int,
            nd as int,
            is_min,
            is_years,
            t.sep(),
        ),
{
    proof {
        assert(texts.deep_view().len() == texts@.len());
    }
    if w > 0 || f > 0 || (texts.len() == 0 && is_min) {
        let p = phrase(t, sing, plur, w, f, nd, is_min, is_years);
        let ghost dv0 = texts.deep_view();
        texts.push(p);
        proof {
            assert(texts.deep_view() =~= dv0.push(p@));
        }
    }
}

/// Turn a decomposition into its list of phrases.
fn render_texts(m: &Decomp, mu: Unit, nd: u32, t: &Translations) -> (texts: Vec<String>)
    requires
        nd <= 19,
    ensures
        texts.deep_view() == spec_texts(*t, model(*m), mu, nd as int, t.sep()),
{
    let mut texts: Vec<String> = Vec::new();
    let r = mu.rank_val();
    proof {
        assert(texts.deep_view() =~= Seq::<Seq<char>>::empty());
    }
    let fy = if r == 7 {
        m.frac
    } else {
        0
    };
    emit_unit(&mut texts, t, "%d year", "%d years", m.years, fy, nd, r == 7, true);
    if r <= 6 {
        let fv = if r == 6 {
            m.frac
        } else {
            0
        };
        emit_unit(&mut texts, t, "%d month", "%d months", m.months, fv, nd, r == 6, false);
    }
    if r <= 5 {
        let fv = if r == 5 {
            m.frac
        } else {
            0
        };
        emit_unit(&mut texts, t, "%d day", "%d days", m.days, fv, nd, r == 5, false);
    }
    if r <= 4 {
        let fv = if r == 4 {
            m.frac
        } else {
            0
        };
        emit_unit(&mut texts, t, "%d hour", "%d hours", m.hours, fv, nd, r == 4, false);
    }
    if r <= 3 {
        let fv = if r == 3 {
            m.frac
        } else {
            0
        };
        emit_unit(&mut texts, t, "%d minute", "%d minutes", m.minutes, fv, nd, r == 3, false);
    }
    if r <= 2 {
        let fv = if r == 2 {
            m.frac
        } else {
            0
        };
        emit_unit(&mut texts, t, "%d second", "%d seconds", m.seconds, fv, nd, r == 2, false);
    }
    if r <= 1 {
        let fv = if r == 1 {
            m.frac
        } else {
            0
        };
        emit_unit(&mut texts, t, "%d millisecond", "%d milliseconds", m.millis, fv, nd, r == 1,
            false);
    }
    if r == 0 {
        emit_unit(&mut texts, t, "%d microsecond", "%d microseconds", m.micros, m.frac, nd, true,
            false);
    }
    texts
}

/// Join the phrases into the final sentence.
fn join_texts(t: &Translations, texts: &Vec<String>) -> (r: String)
    ensures
        r@ == spec_join(*t, texts.deep_view()),
{
    let ghost dv = texts.deep_view();
    if texts.len() == 0 {
        let r = String::new();
        proof {
            assert(r@ =~= Seq::<char>::empty());
        }
        r
    } else if texts.len() == 1 {
        texts[0].clone()
    } else {
        let mut head = texts[0].clone();
        proof {
            assert(dv.take(1) =~= seq![dv[0]]);
        }
        let mut i: usize = 1;
        while i < texts.len() - 1
            invariant
                dv == texts.deep_view(),
                dv.len() == texts.len(),
                texts.len() >= 2,
                1 <= i <= texts.len() - 1,
                head@ == spec_comma_join(dv.take(i as int)),
            decreases texts.len() - i,
        {
            head.append(", ");
            head.append(texts[i].as_str());
            proof {
                assert(dv.take(i as int + 1).take(i as int) =~= dv.take(i as int));
                assert(dv.take(i as int + 1).last() == dv[i as int]);
            }
            i += 1;
        }
        let tpl = t.gettext("%s and %s");
        proof {
            reveal_strlit("%s");
        }
        let r1 = replace_first_str(tpl.as_str(), "%s", head.as_str());
        let last = &texts[texts.len() - 1];
        replace_first_str(r1.as_str(), "%s", last.as_str())
    }
}

// ---------------------------------------------------------------------------
// The public decomposer
// ---------------------------------------------------------------------------
/// The decomposition of an absolute microsecond total, carry pass included.
pub open spec fn spec_decomposed(
    abs_t: int,
    mu: Unit,
    sup: Seq<bool>,
    tr: bool,
    pow: int,
) -> DecompModel {
    spec_carry(
        spec_cascade(
            abs_t / 86_400_000_000,
            (abs_t % 86_400_000_000) / 1_000_000,
            (abs_t % 86_400_000_000) % 1_000_000,
            mu,
            sup,
            tr,
            pow,
        ),
        sup,
    )
}

/// What `precisedelta_td` returns, error strings included: the minimum unit
/// name must be recognized; a suppressed minimum unit walks upward to the
/// first non-suppressed unit, and when there is none the failure is
/// reported; otherwise the duration's absolute value is cascaded, carried
/// and rendered.
pub open spec fn spec_precisedelta(
    td: TimeDelta,
    mu_s: Seq<char>,
    names: Seq<Seq<char>>,
    fmt: Seq<char>,
    t: Translations,
) -> Seq<char> {
    let sup0 = spec_sup0(names);
    match spec_unit_from_name(mu_s) {
        Option::None => "Unknown unit: "@ + mu_s,
        Option::Some(mu0) => match spec_suitable(mu0, sup0) {
            Option::None => "Minimum unit is suppressed and no suitable replacement was found"@,
            Option::Some(mu) => {
                let sup = spec_sup_lower(mu, sup0);
                let kind = spec_fmt_kind(fmt);
                let tr = kind is Truncate;
                let nd: int = match kind {
                    FmtKind::Truncate => 0,
                    FmtKind::Fixed(n) => n as int,
                };
                let m = spec_decomposed(td.abs_total(), mu, sup, tr, spec_pow10(nd));
                spec_join(t, spec_texts(t, m, mu, nd, t.sep()))
            },
        },
    }
}

// ---------------------------------------------------------------------------
// Laws
// ---------------------------------------------------------------------------
/// The quantity a decomposition holds for one unit.
pub open spec fn quantity(m: DecompModel, u: Unit) -> int {
    match u {
        Unit::Years => m.years,
        Unit::Months => m.months,
        Unit::Days => m.days,
        Unit::Hours => m.hours,
        Unit::Minutes => m.minutes,
        Unit::Seconds => m.seconds,
        Unit::Milliseconds => m.millis,
        Unit::Microseconds => m.micros,
    }
}

/// Suppression monotonicity: a suppressed unit never surfaces.  The cascade
/// forces a suppressed unit's quotient to zero and the carry pass never
/// hands a carry to a suppressed unit, so its quantity stays zero; and since
/// a suppressed unit is never the minimum unit, the phrase guard
/// (value non-zero, or first phrase at the minimum unit) cannot admit it,
/// so its name cannot enter the rendered output.
pub proof fn lemma_suppression_monotone(
    d: int,
    s: int,
    us: int,
    mu: Unit,
    sup: Seq<bool>,
    tr: bool,
    pow: int,
    u: Unit,
)
    requires
        sup.len() == 8,
        sup[u.rank()],
        !sup[mu.rank()],
    ensures
        quantity(spec_carry(spec_cascade(d, s, us, mu, sup, tr, pow), sup), u) == 0,
        u != mu,
        forall|acc: Seq<Seq<char>>, t: Translations, sing: Seq<char>, plur: Seq<char>, nd: int,
            is_years: bool, sep: Seq<char>|
            #[trigger] spec_emit(acc, t, sing, plur, 0, 0, nd, false, is_years, sep) == acc,
{
    let m0 = spec_cascade(d, s, us, mu, sup, tr, pow);
    assert(quantity(m0, u) == 0);
    assert(quantity(spec_carry(m0, sup), u) == 0);
}

/// The nominal value of one unit, in microseconds (a month is 30.5 days
/// and a year 365 days, as the cascade divides).
pub open spec fn unit_weight(u: Unit) -> int {
    match u {
        Unit::Microseconds => 1,
        Unit::Milliseconds => 1000,
        Unit::Seconds => 1_000_000,
        Unit::Minutes => 60_000_000,
        Unit::Hours => 3_600_000_000,
        Unit::Days => 86_400_000_000,
        Unit::Months => 2_635_200_000_000,
        Unit::Years => 31_536_000_000_000,
    }
}

/// The decomposition's weighted microsecond total, scaled by the format's
/// power of ten so that the minimum unit's fraction counts exactly.
pub open spec fn weighted_scaled(m: DecompModel, mu: Unit, pow: int) -> int {
    m.years * 31_536_000_000_000 * pow + m.months * 2_635_200_000_000 * pow + m.days
        * 86_400_000_000 * pow + m.hours * 3_600_000_000 * pow + m.minutes * 60_000_000 * pow
        + m.seconds * 1_000_000 * pow + m.millis * 1000 * pow + m.micros * pow + m.frac
        * unit_weight(mu)
}

/// Each carry step moves exactly one receiving unit's worth out of the
/// giving unit, so with the calendar units suppressed (no 31-day month or
/// 12-month year carry can fire) the weighted total is unchanged.
proof fn lemma_carry_preserves(m: DecompModel, sup: Seq<bool>, mu: Unit, pow: int)
    requires
        sup.len() == 8,
        sup[6],
        sup[7],
    ensures
        weighted_scaled(spec_carry(m, sup), mu, pow) == weighted_scaled(m, mu, pow),
{
    let m1 = if m.millis >= 1000 && !sup[2] {
        DecompModel { millis: m.millis - 1000, seconds: m.seconds + 1, ..m }
    } else {
        m
    };
    let m2 = if m1.seconds >= 60 && !sup[3] {
        DecompModel { seconds: m1.seconds - 60, minutes: m1.minutes + 1, ..m1 }
    } else {
        m1
    };
    let m3 = if m2.minutes >= 60 && !sup[4] {
        DecompModel { minutes: m2.minutes - 60, hours: m2.hours + 1, ..m2 }
    } else {
        m2
    };
    let m4 = if m3.hours >= 24 && !sup[5] {
        DecompModel { hours: m3.hours - 24, days: m3.days + 1, ..m3 }
    } else {
        m3
    };
    lemma_carry_arith(m.millis, m.seconds, 1000, 1_000_000, 1000, pow);
    assert(weighted_scaled(m1, mu, pow) == weighted_scaled(m, mu, pow));
    lemma_carry_arith(m1.seconds, m1.minutes, 1_000_000, 60_000_000, 60, pow);
    assert(weighted_scaled(m2, mu, pow) == weighted_scaled(m1, mu, pow));
    lemma_carry_arith(m2.minutes, m2.hours, 60_000_000, 3_600_000_000, 60, pow);
    assert(weighted_scaled(m3, mu, pow) == weighted_scaled(m2, mu, pow));
    lemma_carry_arith(m3.hours, m3.days, 3_600_000_000, 86_400_000_000, 24, pow);
    assert(weighted_scaled(m4, mu, pow) == weighted_scaled(m3, mu, pow));
    assert(spec_carry(m, sup) == m4);
}

/// Moving one carry between adjacent units leaves the weighted total
/// unchanged: the receiving unit's weight is the giving unit's weight times
/// the modulus handed over.
proof fn lemma_carry_arith(a: int, b: int, wg: int, wr: int, n: int, pow: int)
    requires
        n * wg == wr,
    ensures
        (a - n) * wg * pow + (b + 1) * wr * pow == a * wg * pow + b * wr * pow,
{
    assert((a - n) * wg * pow + (b + 1) * wr * pow == a * wg * pow + b * wr * pow)
        by (nonlinear_arith)
        requires
            n * wg == wr,
    ;
}

/// A non-terminal step divides exactly: quotient times divisor plus
/// remainder recovers the value.
proof fn lemma_step_exact(v: int, div: int, is_sup: bool, tr: bool, pow: int)
    requires
        v >= 0,
        div >= 1,
    ensures
        ({
            let st = spec_step(v, div, false, is_sup, tr, pow);
            st.0 >= 0 && st.1 == 0 && st.2 >= 0 && st.0 * div + st.2 == v
        }),
{
    if !is_sup {
        lemma_fundamental_div_mod(v, div);
        vstd::arithmetic::div_mod::lemma_div_pos_is_pos(v, div);
        assert((v / div) * div == div * (v / div)) by (nonlinear_arith);
    }
}

/// A step over a zero value yields nothing and passes nothing on.
proof fn lemma_step_zero(div: int, is_min: bool, is_sup: bool, tr: bool, pow: int)
    requires
        div >= 1,
        pow >= 1,
    ensures
        spec_step(0, div, is_min, is_sup, tr, pow) == (0int, 0int, 0int),
{
    vstd::arithmetic::div_mod::lemma_div_of0(div);
    vstd::arithmetic::div_mod::lemma_small_mod(0, div as nat);
    if is_min && !tr {
        vstd::arithmetic::div_mod::lemma_div_of0(div);
        assert(0 * pow == 0) by (nonlinear_arith);
    }
}

/// The terminal rounding differs from the exact scaled quotient by at most
/// one unit's worth: the scaled whole-and-fraction value times the divisor
/// is within `div * pow` of the scaled remaining value.
proof fn lemma_term_bound(p: int, q: int, pow: int, tr: bool)
    requires
        p >= 0,
        q >= 1,
        pow >= 1,
    ensures
        ({
            let t = spec_term(p, q, pow, tr);
            t.0 >= 0 && 0 <= t.1 < pow && -(q * pow) <= (t.0 * pow + t.1) * q - p * pow <= q * pow
        }),
{
    lemma_fundamental_div_mod(p, q);
    vstd::arithmetic::div_mod::lemma_div_pos_is_pos(p, q);
    let w = p / q;
    let rem = p % q;
    if tr {
        let t = spec_term(p, q, pow, tr);
        assert(t.0 == w && t.1 == 0);
        assert(-(q * pow) <= (w * pow + 0) * q - p * pow <= q * pow) by (nonlinear_arith)
            requires
                p == q * w + rem,
                0 <= rem < q,
                pow >= 1,
        ;
    } else {
        let num = rem * pow;
        assert(num >= 0) by (nonlinear_arith)
            requires
                num == rem * pow,
                rem >= 0,
                pow >= 1,
        ;
        lemma_fundamental_div_mod(num, q);
        vstd::arithmetic::div_mod::lemma_div_pos_is_pos(num, q);
        let fq = num / q;
        let fr = num % q;
        let f = if 2 * fr < q {
            fq
        } else if 2 * fr > q {
            fq + 1
        } else if (w * pow + fq) % 2 == 0 {
            fq
        } else {
            fq + 1
        };
        // the fraction numerator stays below the scale
        assert(num < q * pow) by (nonlinear_arith)
            requires
                num == rem * pow,
                0 <= rem < q,
                pow >= 1,
        ;
        lemma_multiply_divide_lt(num, q, pow);
        assert(fq < pow);
        let t = spec_term(p, q, pow, tr);
        if f == pow {
            assert(t.0 == w + 1 && t.1 == 0);
            assert((w + 1) * pow + 0 == w * pow + f) by (nonlinear_arith)
                requires
                    f == pow,
            ;
        } else {
            assert(t.0 == w && t.1 == f);
        }
        assert(t.0 * pow + t.1 == w * pow + f);
        assert(-q <= f * q - num <= q) by (nonlinear_arith)
            requires
                num == q * fq + fr,
                0 <= fr < q,
                f == fq || f == fq + 1,
        ;
        assert((w * pow + f) * q - p * pow == f * q - num) by (nonlinear_arith)
            requires
                p == q * w + rem,
                num == rem * pow,
        ;
        assert(q <= q * pow) by (nonlinear_arith)
            requires
                q >= 1,
                pow >= 1,
        ;
        assert((t.0 * pow + t.1) * q == (w * pow + f) * q);
    }
}

/// Decomposition conservation with the calendar units suppressed: the
/// weighted sum of the emitted quantities recovers the duration's total,
/// within twice the minimum unit (the format directive's rounding at the
/// minimum unit, plus the sub-second residue a coarser minimum unit never
/// sees).  With months or years displayed the carry pass can perturb the
/// total beyond any format tolerance — trading thirty-one displayed days
/// for one 30.5-day month, or twelve such months for a 365-day year — so
/// the law is stated for the uniform units.
pub proof fn lemma_decomposition_conservation(
    d: int,
    s: int,
    us: int,
    mu: Unit,
    sup: Seq<bool>,
    tr: bool,
    pow: int,
)
    requires
        sup.len() == 8,
        d >= 0,
        0 <= s < 86400,
        0 <= us < 1_000_000,
        pow >= 1,
        sup[6],
        sup[7],
        mu.rank() <= 5,
        !sup[mu.rank()],
        forall|k: int| 0 <= k < mu.rank() ==> sup[k],
    ensures
        ({
            let m = spec_carry(spec_cascade(d, s, us, mu, sup, tr, pow), sup);
            let total = (d * 86_400_000_000 + s * 1_000_000 + us) * pow;
            total - 2 * unit_weight(mu) * pow <= weighted_scaled(m, mu, pow) <= total + 2
                * unit_weight(mu) * pow
        }),
{
    let m0 = spec_cascade(d, s, us, mu, sup, tr, pow);
    lemma_carry_preserves(m0, sup, mu, pow);
    let w = unit_weight(mu);
    let total = (d * 86_400_000_000 + s * 1_000_000 + us) * pow;
    let ty = spec_step(d, 365, mu == Unit::Years, sup[7], tr, pow);
    assert(ty == (0int, 0int, d));
    let tm = spec_step_months(ty.2, mu == Unit::Months, sup[6], tr, pow);
    assert(tm == (0int, 0int, 2 * d));
    let s1 = tm.2 * 43200 + s;
    let td = spec_step(s1, 86400, mu == Unit::Days, sup[5], tr, pow);
    let th = spec_step(td.2, 3600, mu == Unit::Hours, sup[4], tr, pow);
    let tmin = spec_step(th.2, 60, mu == Unit::Minutes, sup[3], tr, pow);
    let us1 = tmin.2 * 1_000_000 + us;
    let ts = spec_step(us1, 1_000_000, mu == Unit::Seconds, sup[2], tr, pow);
    let tms = spec_step(ts.2, 1000, mu == Unit::Milliseconds, sup[1], tr, pow);
    let tus = spec_step(tms.2, 1, mu == Unit::Microseconds, sup[0], tr, pow);
    assert(m0.years == ty.0 && m0.months == tm.0 && m0.days == td.0 && m0.hours == th.0
        && m0.minutes == tmin.0 && m0.seconds == ts.0 && m0.millis == tms.0 && m0.micros == tus.0);
    let em = weighted_scaled(m0, mu, pow);
    assert(m0.years * 31_536_000_000_000 * pow == 0) by (nonlinear_arith)
        requires
            m0.years == 0,
    ;
    assert(m0.months * 2_635_200_000_000 * pow == 0) by (nonlinear_arith)
        requires
            m0.months == 0,
    ;
    assert(total == s1 * 1_000_000 * pow + us * pow) by (nonlinear_arith)
        requires
            s1 == 2 * d * 43200 + s,
            total == (d * 86_400_000_000 + s * 1_000_000 + us) * pow,
    ;
    assert(0 <= us * pow && us * pow <= 1_000_000 * pow) by (nonlinear_arith)
        requires
            0 <= us < 1_000_000,
            pow >= 1,
    ;
    if mu == Unit::Days {
        // terminal at days: the units below are suppressed, so the
        // sub-second residue `us` (below one second) is dropped
        let t = spec_term(s1, 86400, pow, tr);
        lemma_term_bound(s1, 86400, pow, tr);
        let w0 = t.0;
        let f0 = t.1;
        assert(td == (w0, f0, 0int));
        lemma_step_zero(3600, false, sup[4], tr, pow);
        lemma_step_zero(60, false, sup[3], tr, pow);
        assert(us1 == us);
        assert(ts == (0int, 0int, us) && tms == (0int, 0int, us) && tus == (0int, 0int, us));
        assert(m0.frac == f0);
        assert(-(86_400_000_000 * pow) <= w0 * 86_400_000_000 * pow + f0 * 86_400_000_000 - s1
            * 1_000_000 * pow <= 86_400_000_000 * pow) by (nonlinear_arith)
            requires
                -(86400 * pow) <= (w0 * pow + f0) * 86400 - s1 * pow <= 86400 * pow,
        ;
        assert(em == w0 * 86_400_000_000 * pow + f0 * 86_400_000_000);
        assert(w == 86_400_000_000);
        assert(2 * w * pow == 172_800_000_000 * pow) by (nonlinear_arith)
            requires
                w == 86_400_000_000,
        ;
        assert(total - 2 * w * pow <= em <= total + 2 * w * pow);
    } else if mu == Unit::Hours {
        lemma_step_exact(s1, 86400, sup[5], tr, pow);
        let t = spec_term(td.2, 3600, pow, tr);
        lemma_term_bound(td.2, 3600, pow, tr);
        let w0 = t.0;
        let f0 = t.1;
        assert(th == (w0, f0, 0int));
        lemma_step_zero(60, false, sup[3], tr, pow);
        assert(us1 == us);
        assert(ts == (0int, 0int, us) && tms == (0int, 0int, us) && tus == (0int, 0int, us));
        assert(m0.frac == f0);
        assert(s1 * 1_000_000 * pow == td.0 * 86_400_000_000 * pow + td.2 * 1_000_000 * pow)
            by (nonlinear_arith)
            requires
                td.0 * 86400 + td.2 == s1,
        ;
        assert(-(3_600_000_000 * pow) <= w0 * 3_600_000_000 * pow + f0 * 3_600_000_000 - td.2
            * 1_000_000 * pow <= 3_600_000_000 * pow) by (nonlinear_arith)
            requires
                -(3600 * pow) <= (w0 * pow + f0) * 3600 - td.2 * pow <= 3600 * pow,
        ;
        assert(em == td.0 * 86_400_000_000 * pow + w0 * 3_600_000_000 * pow + f0 * 3_600_000_000);
        assert(0 <= us * pow && us * pow <= 3_600_000_000 * pow) by (nonlinear_arith)
            requires
                0 <= us < 1_000_000,
                pow >= 1,
        ;
        assert(w == 3_600_000_000);
        assert(2 * w * pow == 7_200_000_000 * pow) by (nonlinear_arith)
            requires
                w == 3_600_000_000,
        ;
        assert(total - 2 * w * pow <= em <= total + 2 * w * pow);
    } else if mu == Unit::Minutes {
        lemma_step_exact(s1, 86400, sup[5], tr, pow);
        lemma_step_exact(td.2, 3600, sup[4], tr, pow);
        let t = spec_term(th.2, 60, pow, tr);
        lemma_term_bound(th.2, 60, pow, tr);
        let w0 = t.0;
        let f0 = t.1;
        assert(tmin == (w0, f0, 0int));
        assert(us1 == us);
        assert(ts == (0int, 0int, us) && tms == (0int, 0int, us) && tus == (0int, 0int, us));
        assert(m0.frac == f0);
        assert(s1 * 1_000_000 * pow == td.0 * 86_400_000_000 * pow + td.2 * 1_000_000 * pow)
            by (nonlinear_arith)
            requires
                td.0 * 86400 + td.2 == s1,
        ;
        assert(td.2 * 1_000_000 * pow == th.0 * 3_600_000_000 * pow + th.2 * 1_000_000 * pow)
            by (nonlinear_arith)
            requires
                th.0 * 3600 + th.2 == td.2,
        ;
        assert(-(60_000_000 * pow) <= w0 * 60_000_000 * pow + f0 * 60_000_000 - th.2 * 1_000_000
            * pow <= 60_000_000 * pow) by (nonlinear_arith)
            requires
                -(60 * pow) <= (w0 * pow + f0) * 60 - th.2 * pow <= 60 * pow,
        ;
        assert(em == td.0 * 86_400_000_000 * pow + th.0 * 3_600_000_000 * pow + w0 * 60_000_000
            * pow + f0 * 60_000_000);
        assert(0 <= us * pow && us * pow <= 60_000_000 * pow) by (nonlinear_arith)
            requires
                0 <= us < 1_000_000,
                pow >= 1,
        ;
        assert(w == 60_000_000);
        assert(2 * w * pow == 120_000_000 * pow) by (nonlinear_arith)
            requires
                w == 60_000_000,
        ;
        assert(total - 2 * w * pow <= em <= total + 2 * w * pow);
    } else {
        // the minimum unit lies in the microsecond chain, where the
        // residue `us` is folded in exactly
        lemma_step_exact(s1, 86400, sup[5], tr, pow);
        lemma_step_exact(td.2, 3600, sup[4], tr, pow);
        lemma_step_exact(th.2, 60, sup[3], tr, pow);
        assert(s1 * 1_000_000 * pow == td.0 * 86_400_000_000 * pow + td.2 * 1_000_000 * pow)
            by (nonlinear_arith)
            requires
                td.0 * 86400 + td.2 == s1,
        ;
        assert(td.2 * 1_000_000 * pow == th.0 * 3_600_000_000 * pow + th.2 * 1_000_000 * pow)
            by (nonlinear_arith)
            requires
                th.0 * 3600 + th.2 == td.2,
        ;
        assert(th.2 * 1_000_000 * pow == tmin.0 * 60_000_000 * pow + tmin.2 * 1_000_000 * pow)
            by (nonlinear_arith)
            requires
                tmin.0 * 60 + tmin.2 == th.2,
        ;
        assert(tmin.2 * 1_000_000 * pow + us * pow == us1 * pow) by (nonlinear_arith)
            requires
                us1 == tmin.2 * 1_000_000 + us,
        ;
        if mu == Unit::Seconds {
            let t = spec_term(us1, 1_000_000, pow, tr);
            lemma_term_bound(us1, 1_000_000, pow, tr);
            let w0 = t.0;
            let f0 = t.1;
            assert(ts == (w0, f0, 0int));
            lemma_step_zero(1000, false, sup[1], tr, pow);
            lemma_step_zero(1, false, sup[0], tr, pow);
            assert(m0.frac == f0);
            assert(-(1_000_000 * pow) <= w0 * 1_000_000 * pow + f0 * 1_000_000 - us1 * pow
                <= 1_000_000 * pow) by (nonlinear_arith)
                requires
                    -(1_000_000 * pow) <= (w0 * pow + f0) * 1_000_000 - us1 * pow <= 1_000_000
                        * pow,
            ;
            assert(em == td.0 * 86_400_000_000 * pow + th.0 * 3_600_000_000 * pow + tmin.0
                * 60_000_000 * pow + w0 * 1_000_000 * pow + f0 * 1_000_000);
            assert(w == 1_000_000);
            assert(2 * w * pow == 2_000_000 * pow) by (nonlinear_arith)
                requires
                    w == 1_000_000,
            ;
            assert(total - 2 * w * pow <= em <= total + 2 * w * pow);
        } else if mu == Unit::Milliseconds {
            lemma_step_exact(us1, 1_000_000, sup[2], tr, pow);
            let t = spec_term(ts.2, 1000, pow, tr);
            lemma_term_bound(ts.2, 1000, pow, tr);
            let w0 = t.0;
            let f0 = t.1;
            assert(tms == (w0, f0, 0int));
            lemma_step_zero(1, false, sup[0], tr, pow);
            assert(m0.frac == f0);
            assert(us1 * pow == ts.0 * 1_000_000 * pow + ts.2 * pow) by (nonlinear_arith)
                requires
                    ts.0 * 1_000_000 + ts.2 == us1,
            ;
            assert(-(1000 * pow) <= w0 * 1000 * pow + f0 * 1000 - ts.2 * pow <= 1000 * pow)
                by (nonlinear_arith)
                requires
                    -(1000 * pow) <= (w0 * pow + f0) * 1000 - ts.2 * pow <= 1000 * pow,
            ;
            assert(em == td.0 * 86_400_000_000 * pow + th.0 * 3_600_000_000 * pow + tmin.0
                * 60_000_000 * pow + ts.0 * 1_000_000 * pow + w0 * 1000 * pow + f0 * 1000);
            assert(w == 1000);
            assert(2 * w * pow == 2000 * pow) by (nonlinear_arith)
                requires
                    w == 1000,
            ;
            assert(total - 2 * w * pow <= em <= total + 2 * w * pow);
        } else {
            assert(mu == Unit::Microseconds);
            lemma_step_exact(us1, 1_000_000, sup[2], tr, pow);
            lemma_step_exact(ts.2, 1000, sup[1], tr, pow);
            let t = spec_term(tms.2, 1, pow, tr);
            lemma_term_bound(tms.2, 1, pow, tr);
            let w0 = t.0;
            let f0 = t.1;
            assert(tus == (w0, f0, 0int));
            assert(m0.frac == f0);
            assert(us1 * pow == ts.0 * 1_000_000 * pow + ts.2 * pow) by (nonlinear_arith)
                requires
                    ts.0 * 1_000_000 + ts.2 == us1,
            ;
            assert(ts.2 * pow == tms.0 * 1000 * pow + tms.2 * pow) by (nonlinear_arith)
                requires
                    tms.0 * 1000 + tms.2 == ts.2,
            ;
            assert(-(1 * pow) <= w0 * pow + f0 * 1 - tms.2 * pow <= 1 * pow) by (nonlinear_arith)
                requires
                    -(1 * pow) <= (w0 * pow + f0) * 1 - tms.2 * pow <= 1 * pow,
        ;
            assert(em == td.0 * 86_400_000_000 * pow + th.0 * 3_600_000_000 * pow + tmin.0
                * 60_000_000 * pow + ts.0 * 1_000_000 * pow + tms.0 * 1000 * pow + w0 * pow + f0
                * 1);
            assert(w == 1);
            assert(2 * w * pow == 2 * pow) by (nonlinear_arith)
                requires
                    w == 1,
            ;
            assert(total - 2 * w * pow <= em <= total + 2 * w * pow);
        }
    }
}

proof fn lemma_pow10_ge_one(n: int)
    ensures
        spec_pow10(n) >= 1,
    decreases n,
{
    if n > 0 {
        lemma_pow10_ge_one(n - 1);
    }
}

proof fn lemma_first_unsup_props(sup: Seq<bool>, r: int, u: Unit)
    requires
        sup.len() == 8,
        spec_first_unsup(sup, r) == Some(u),
    ensures
        !sup[u.rank()],
        r <= u.rank() < 8,
    decreases 8 - r,
{
    if !(r >= 8 || r < 0) && sup[r] {
        lemma_first_unsup_props(sup, r + 1, u);
    }
}

/// Suppression monotonicity, stated over the public decomposer's own
/// pipeline: a unit named in the suppression list keeps a zero quantity in
/// the decomposition that `precisedelta_td` renders, and is never the
/// effective minimum unit, so its phrase guard cannot admit it into the
/// output.
pub proof fn lemma_precisedelta_suppression(
    td: TimeDelta,
    mu0: Unit,
    names: Seq<Seq<char>>,
    fmt: Seq<char>,
    u: Unit,
)
    requires
        spec_suppressed0(names, u),
        spec_suitable(mu0, spec_sup0(names)) is Some,
    ensures
        ({
            let mu = spec_suitable(mu0, spec_sup0(names)).unwrap();
            let sup = spec_sup_lower(mu, spec_sup0(names));
            let kind = spec_fmt_kind(fmt);
            let nd: int = match kind {
                FmtKind::Truncate => 0,
                FmtKind::Fixed(n) => n as int,
            };
            let m = spec_decomposed(td.abs_total(), mu, sup, kind is Truncate, spec_pow10(nd));
            quantity(m, u) == 0 && u != mu
        }),
{
    let sup0 = spec_sup0(names);
    let mu = spec_suitable(mu0, sup0).unwrap();
    let sup = spec_sup_lower(mu, sup0);
    let kind = spec_fmt_kind(fmt);
    let nd: int = match kind {
        FmtKind::Truncate => 0,
        FmtKind::Fixed(n) => n as int,
    };
    if sup0[mu0.rank()] {
        lemma_first_unsup_props(sup0, mu0.rank() + 1, mu);
    }
    assert(sup[u.rank()] && !sup[mu.rank()]);
    let at = td.abs_total();
    lemma_suppression_monotone(
        at / 86_400_000_000,
        (at % 86_400_000_000) / 1_000_000,
        (at % 86_400_000_000) % 1_000_000,
        mu,
        sup,
        kind is Truncate,
        spec_pow10(nd),
        u,
    );
}

/// Redistribution: suppressing a unit hands its whole value to the next
/// displayed unit below it, here at the day/hour boundary spec'd by the
/// suppression design — with the calendar units suppressed and hours
/// displayed, additionally suppressing days leaves every other quantity
/// unchanged and grows the hours quantity by exactly twenty-four per day
/// that was displayed before.  (At the month boundaries no such exact
/// integer redistribution exists: a month is 30.5 days.)
pub proof fn lemma_days_redistribute_into_hours(
    d: int,
    s: int,
    us: int,
    mu: Unit,
    sup: Seq<bool>,
    tr: bool,
    pow: int,
)
    requires
        sup.len() == 8,
        d >= 0,
        0 <= s < 86400,
        0 <= us < 1_000_000,
        pow >= 1,
        sup[6],
        sup[7],
        !sup[5],
        !sup[4],
        mu.rank() <= 3,
        !sup[mu.rank()],
    ensures
        ({
            let m = spec_carry(spec_cascade(d, s, us, mu, sup, tr, pow), sup);
            let m2 = spec_carry(
                spec_cascade(d, s, us, mu, sup.update(5, true), tr, pow),
                sup.update(5, true),
            );
            &&& m2.days == 0
            &&& m2.hours == m.hours + 24 * m.days
            &&& m2.years == m.years
            &&& m2.months == m.months
            &&& m2.minutes == m.minutes
            &&& m2.seconds == m.seconds
            &&& m2.millis == m.millis
            &&& m2.micros == m.micros
            &&& m2.frac == m.frac
        }),
{
    let sup2 = sup.update(5, true);
    let ma = spec_cascade(d, s, us, mu, sup, tr, pow);
    let mb = spec_cascade(d, s, us, mu, sup2, tr, pow);
    assert(sup2[7] == sup[7] && sup2[6] == sup[6] && sup2[4] == sup[4] && sup2[3] == sup[3]
        && sup2[2] == sup[2] && sup2[1] == sup[1] && sup2[0] == sup[0] && sup2[5]);
    let s1 = 2 * d * 43200 + s;
    assert(s1 >= 0) by (nonlinear_arith)
        requires
            d >= 0,
            s >= 0,
            s1 == 2 * d * 43200 + s,
    ;
    // both cascades roll the day count through years and months untouched
    assert(spec_step(d, 365, mu == Unit::Years, sup[7], tr, pow) == (0int, 0int, d));
    assert(spec_step_months(d, mu == Unit::Months, sup[6], tr, pow) == (0int, 0int, 2 * d));
    // the displayed-days side splits the seconds at a day, the suppressed
    // side at an hour; the quotients and remainders relate exactly because
    // a day is twenty-four hours
    let dq = s1 / 86400;
    let dr = s1 % 86400;
    let hq = dr / 3600;
    let hr = dr % 3600;
    let hq2 = s1 / 3600;
    let hr2 = s1 % 3600;
    lemma_fundamental_div_mod(s1, 3600);
    vstd::arithmetic::div_mod::lemma_mod_pos_bound(s1, 3600);
    vstd::arithmetic::div_mod::lemma_mod_pos_bound(s1 / 3600, 24);
    vstd::arithmetic::div_mod::lemma_div_pos_is_pos(s1, 3600);
    vstd::arithmetic::div_mod::lemma_breakdown(s1, 3600, 24);
    vstd::arithmetic::div_mod::lemma_div_denominator(s1, 3600, 24);
    assert(3600 * 24 == 86400);
    assert(s1 % 86400 == 3600 * ((s1 / 3600) % 24) + s1 % 3600);
    assert(3600 * ((s1 / 3600) % 24) == ((s1 / 3600) % 24) * 3600) by (nonlinear_arith);
    vstd::arithmetic::div_mod::lemma_fundamental_div_mod_converse(
        s1 % 86400,
        3600,
        (s1 / 3600) % 24,
        s1 % 3600,
    );
    assert(hq == (s1 / 3600) % 24);
    assert(hr == hr2);
    assert(hq2 == 24 * dq + hq) by {
        lemma_fundamental_div_mod(s1 / 3600, 24);
        assert((s1 / 3600) / 24 == dq);
    }
    // below the hours step the two cascades agree field for field
    assert(ma.years == 0 && ma.months == 0 && ma.days == dq && ma.hours == hq);
    assert(mb.years == 0 && mb.months == 0 && mb.days == 0 && mb.hours == hq2);
    assert(ma.minutes == mb.minutes && ma.seconds == mb.seconds && ma.millis == mb.millis
        && ma.micros == mb.micros && ma.frac == mb.frac);
    // the carry pass: the three sub-hour carries fire identically; an
    // hours-to-days carry can fire only where days are displayed, and it
    // moves exactly one day's worth, preserving the relation
    let a1 = if ma.millis >= 1000 && !sup[2] {
        DecompModel { millis: ma.millis - 1000, seconds: ma.seconds + 1, ..ma }
    } else {
        ma
    };
    let b1 = if mb.millis >= 1000 && !sup2[2] {
        DecompModel { millis: mb.millis - 1000, seconds: mb.seconds + 1, ..mb }
    } else {
        mb
    };
    let a2 = if a1.seconds >= 60 && !sup[3] {
        DecompModel { seconds: a1.seconds - 60, minutes: a1.minutes + 1, ..a1 }
    } else {
        a1
    };
    let b2 = if b1.seconds >= 60 && !sup2[3] {
        DecompModel { seconds: b1.seconds - 60, minutes: b1.minutes + 1, ..b1 }
    } else {
        b1
    };
    let a3 = if a2.minutes >= 60 && !sup[4] {
        DecompModel { minutes: a2.minutes - 60, hours: a2.hours + 1, ..a2 }
    } else {
        a2
    };
    let b3 = if b2.minutes >= 60 && !sup2[4] {
        DecompModel { minutes: b2.minutes - 60, hours: b2.hours + 1, ..b2 }
    } else {
        b2
    };
    assert(b3.hours == a3.hours + 24 * a3.days && b3.days == 0);
    let a4 = if a3.hours >= 24 && !sup[5] {
        DecompModel { hours: a3.hours - 24, days: a3.days + 1, ..a3 }
    } else {
        a3
    };
    let b4 = b3;
    assert(!(b3.hours >= 24 && !sup2[5]));
    assert(b4.hours == a4.hours + 24 * a4.days);
    assert(spec_carry(ma, sup) == a4 && spec_carry(mb, sup2) == b4);
}

/// Decomposition conservation, stated over the public decomposer's own
/// pipeline: for any duration and any suppression list that names the
/// calendar units (months and years), the decomposition that
/// `precisedelta_td` renders recovers the duration's total magnitude within
/// twice the effective minimum unit.
pub proof fn lemma_precisedelta_conservation(
    td: TimeDelta,
    mu0: Unit,
    names: Seq<Seq<char>>,
    fmt: Seq<char>,
)
    requires
        td.wf(),
        spec_suppressed0(names, Unit::Months),
        spec_suppressed0(names, Unit::Years),
        spec_suitable(mu0, spec_sup0(names)) is Some,
    ensures
        ({
            let mu = spec_suitable(mu0, spec_sup0(names)).unwrap();
            let sup = spec_sup_lower(mu, spec_sup0(names));
            let kind = spec_fmt_kind(fmt);
            let nd: int = match kind {
                FmtKind::Truncate => 0,
                FmtKind::Fixed(n) => n as int,
            };
            let pow = spec_pow10(nd);
            let m = spec_decomposed(td.abs_total(), mu, sup, kind is Truncate, pow);
            let total = td.abs_total() * pow;
            total - 2 * unit_weight(mu) * pow <= weighted_scaled(m, mu, pow) <= total + 2
                * unit_weight(mu) * pow
        }),
{
    let sup0 = spec_sup0(names);
    let mu = spec_suitable(mu0, sup0).unwrap();
    let sup = spec_sup_lower(mu, sup0);
    let kind = spec_fmt_kind(fmt);
    let tr = kind is Truncate;
    let nd: int = match kind {
        FmtKind::Truncate => 0,
        FmtKind::Fixed(n) => n as int,
    };
    let pow = spec_pow10(nd);
    lemma_pow10_ge_one(nd);
    // the effective minimum unit is itself unsuppressed, hence not a
    // calendar unit here
    if sup0[mu0.rank()] {
        lemma_first_unsup_props(sup0, mu0.rank() + 1, mu);
    }
    assert(!sup0[mu.rank()]);
    assert(sup0[6] && sup0[7]);
    assert(mu.rank() <= 5);
    assert(sup[6] && sup[7] && !sup[mu.rank()]);
    // split the magnitude into its normalized fields
    let at = td.abs_total();
    let d = at / 86_400_000_000;
    let rem = at % 86_400_000_000;
    let s = rem / 1_000_000;
    let us = rem % 1_000_000;
    lemma_fundamental_div_mod(at, 86_400_000_000);
    vstd::arithmetic::div_mod::lemma_mod_pos_bound(at, 86_400_000_000);
    vstd::arithmetic::div_mod::lemma_div_pos_is_pos(at, 86_400_000_000);
    lemma_fundamental_div_mod(rem, 1_000_000);
    vstd::arithmetic::div_mod::lemma_mod_pos_bound(rem, 1_000_000);
    vstd::arithmetic::div_mod::lemma_div_pos_is_pos(rem, 1_000_000);
    assert(s < 86400) by {
        lemma_multiply_divide_lt(rem, 1_000_000, 86400);
    }
    assert(at == d * 86_400_000_000 + s * 1_000_000 + us);
    lemma_decomposition_conservation(d, s, us, mu, sup, tr, pow);
    assert((d * 86_400_000_000 + s * 1_000_000 + us) * pow == at * pow);
}

/// A precise multi-unit representation of a duration
/// ("2 days, 1 hour and 33.12 seconds").  Suppressed units contribute their
/// value to the neighbouring displayed unit; the minimum unit shows the
/// whole remaining value rounded by the format directive; unknown
/// suppression names are ignored, and unit errors are returned as
/// descriptive strings.
#[verifier::rlimit(100)]
pub fn precisedelta_td(
    value: TimeDelta,
    minimum_unit: &str,
    suppress: &[&str],
    format: &str,
    t: &Translations,
) -> (r: String)
    requires
        value.wf(),
        value.days > i64::MIN,
    ensures
        r@ == spec_precisedelta(value, minimum_unit@, spec_name_views(suppress@), format@, *t),
{
    let sup0 = parse_suppress(suppress);
    let mu0 = match Unit::from_str(minimum_unit) {
        Ok(u) => u,
        Err(e) => {
            return e;
        },
    };
    let mu = match suitable_minimum_unit(mu0, &sup0) {
        Ok(u) => u,
        Err(e) => {
            return e;
        },
    };
    let sup = suppress_lower_units(mu, &sup0);
    let kind = parse_fmt(format);
    let (tr, nd) = match kind {
        FmtKind::Truncate => (true, 0u32),
        FmtKind::Fixed(n) => (false, n),
    };
    let pow = pow10(nd);
    let delta = value.abs();
    let dm = cascade(
        delta.days as u64,
        delta.seconds as u64,
        delta.microseconds as u64,
        mu,
        &sup,
        tr,
        pow,
    );
    let dm = carry(dm, &sup);
    let texts = render_texts(&dm, mu, nd, t);
    join_texts(t, &texts)
}

} // verus!
