//! Number formatting helpers: classifying numeric strings, ordinals,
//! Associated Press number words, and grouping a numeral with thousands
//! separators.

use vstd::prelude::*;

use crate::i18n::{spec_gettext, spec_pgettext, Translations};
use crate::precise::{spec_digits_val, spec_pow10};
use crate::text::{all_digits, is_digit_char, push_char, spec_dec, spec_group, u128_to_dec};
use crate::time::{eq_upper, spec_upper};

verus! {

/// Length of the run of decimal digits in `s` starting at index `i`.
pub open spec fn digit_run_len(s: Seq<char>, i: int) -> int
    decreases s.len() - i,
{
    if i < 0 || i >= s.len() {
        0
    } else if is_digit_char(s[i]) {
        1 + digit_run_len(s, i + 1)
    } else {
        0
    }
}

proof fn lemma_digit_run_full(s: Seq<char>, i: int)
    requires
        0 <= i <= s.len(),
        all_digits(s),
    ensures
        digit_run_len(s, i) == s.len() - i,
    decreases s.len() - i,
{
    if i < s.len() {
        lemma_digit_run_full(s, i + 1);
    }
}

/// Index where the leading digit run starts: after an optional minus sign.
pub open spec fn sign_offset(s: Seq<char>) -> int {
    if s.len() > 0 && s[0] == '-' {
        1
    } else {
        0
    }
}

/// Length of the leading digit run after an optional minus sign.
pub open spec fn signed_run(s: Seq<char>) -> int {
    digit_run_len(s, sign_offset(s))
}

/// Relies on `regex::Regex::new` and `regex::Regex::captures` with the
/// anchored pattern `^(-?[0-9]+)([0-9]{3})`: the greedy first group
/// backtracks exactly three digits, so a match exists precisely when the
/// leading digit run (after an optional minus sign) has at least four
/// digits, and it splits that run three digits before its end.
#[verifier::external_body]
fn split_leading_group(s: &str) -> (r: Option<(String, String)>)
    ensures
        r is Some ==> signed_run(s@) >= 4,
        r is Some ==> r.unwrap().0@ == s@.take(sign_offset(s@) + signed_run(s@) - 3),
        r is Some ==> r.unwrap().1@ == s@.subrange(
            sign_offset(s@) + signed_run(s@) - 3,
            sign_offset(s@) + signed_run(s@),
        ),
        r is None ==> signed_run(s@) < 4,
{
    let re = regex::Regex::new("^(-?[0-9]+)([0-9]{3})").unwrap();
    match re.captures(s) {
        Some(c) => Some((c[1].to_string(), c[2].to_string())),
        None => None,
    }
}

// ---------------------------------------------------------------------------
// Numeric string classification
// ---------------------------------------------------------------------------
/// What a numeric string denotes: not a number at all, one of the special
/// floating-point spellings, or a finite value truncated to a signed 64-bit
/// integer (saturating at the type's bounds).
#[derive(Clone, Copy, Debug, PartialEq, Eq, Structural)]
pub enum NumClass {
    NotNum,
    NaN,
    PosInf,
    NegInf,
    Int(i64),
}

/// The digit sequence of a decimal literal: its integer digits followed by
/// its fraction digits, the dot dropped.
pub open spec fn spec_mantissa(rest: Seq<char>) -> Seq<char> {
    let a = digit_run_len(rest, 0);
    if a < rest.len() && rest[a] == '.' {
        rest.take(a) + rest.subrange(a + 1, a + 1 + digit_run_len(rest, a + 1))
    } else {
        rest.take(a)
    }
}

/// Index just past the mantissa of a decimal literal.
pub open spec fn spec_mantissa_end(rest: Seq<char>) -> int {
    let a = digit_run_len(rest, 0);
    if a < rest.len() && rest[a] == '.' {
        a + 1 + digit_run_len(rest, a + 1)
    } else {
        a
    }
}

/// Whether the characters from `pm` on form a valid exponent: "e" or "E",
/// an optional sign, and at least one digit reaching the end.
pub open spec fn spec_valid_exp(rest: Seq<char>, pm: int) -> bool {
    &&& pm < rest.len()
    &&& (rest[pm] == 'e' || rest[pm] == 'E')
    &&& ({
        let es = spec_exp_digits_start(rest, pm);
        let c = digit_run_len(rest, es);
        c > 0 && es + c == rest.len()
    })
}

/// Index where the exponent's digits start, past "e" and an optional sign.
pub open spec fn spec_exp_digits_start(rest: Seq<char>, pm: int) -> int {
    if pm + 1 < rest.len() && (rest[pm + 1] == '+' || rest[pm + 1] == '-') {
        pm + 2
    } else {
        pm + 1
    }
}

/// The signed exponent value of a decimal literal (zero when absent).
pub open spec fn spec_exp_val(rest: Seq<char>, pm: int) -> int {
    if pm == rest.len() {
        0
    } else {
        let es = spec_exp_digits_start(rest, pm);
        let v = spec_digits_val(rest, es, rest.len() as int);
        if pm + 1 < rest.len() && rest[pm + 1] == '-' {
            -v
        } else {
            v
        }
    }
}

/// Whether `rest` (after any leading sign) is a decimal literal: a digit
/// run, an optional dot with a digit run, at least one digit somewhere, and
/// an optional well-formed exponent.
pub open spec fn spec_valid_decimal(rest: Seq<char>) -> bool {
    let pm = spec_mantissa_end(rest);
    &&& spec_mantissa(rest).len() > 0
    &&& (pm == rest.len() || spec_valid_exp(rest, pm))
}

/// The magnitude of a decimal literal truncated to an integer: the digit
/// sequence read up to the decimal point's final position.
pub open spec fn spec_trunc_mag(dig: Seq<char>, point: int) -> int {
    if point <= 0 {
        0
    } else if point >= dig.len() {
        spec_digits_val(dig, 0, dig.len() as int) * spec_pow10(point - dig.len())
    } else {
        spec_digits_val(dig, 0, point)
    }
}

/// The truncated magnitude of the whole literal.
pub open spec fn spec_mag_of(rest: Seq<char>) -> int {
    spec_trunc_mag(
        spec_mantissa(rest),
        digit_run_len(rest, 0) + spec_exp_val(rest, spec_mantissa_end(rest)),
    )
}

/// A truncated magnitude saturated into the signed 64-bit range.
pub open spec fn spec_sat_signed(neg: bool, mag: int) -> int {
    if neg {
        if mag > 0x8000_0000_0000_0000 {
            -0x8000_0000_0000_0000
        } else {
            -mag
        }
    } else {
        if mag > 0x7fff_ffff_ffff_ffff {
            0x7fff_ffff_ffff_ffff
        } else {
            mag
        }
    }
}

/// The classification of a numeric string: an optional sign, then either a
/// spelling of infinity or NaN (compared case-insensitively, as
/// floating-point parsing does), a decimal literal truncated to an integer,
/// or nothing numeric at all.
pub open spec fn spec_classify(s: Seq<char>) -> NumClass {
    let neg = s.len() > 0 && s[0] == '-';
    let off: int = if s.len() > 0 && (s[0] == '-' || s[0] == '+') {
        1
    } else {
        0
    };
    let rest = s.skip(off);
    let u = spec_upper(rest);
    if u == "INF"@ || u == "INFINITY"@ {
        if neg {
            NumClass::NegInf
        } else {
            NumClass::PosInf
        }
    } else if u == "NAN"@ {
        NumClass::NaN
    } else if !spec_valid_decimal(rest) {
        NumClass::NotNum
    } else {
        NumClass::Int(spec_sat_signed(neg, spec_mag_of(rest)) as i64)
    }
}

/// Count the digits running from `from`.
fn digit_run(s: &str, from: usize) -> (r: usize)
    requires
        from <= s@.len(),
    ensures
        r as int == digit_run_len(s@, from as int),
        from + r <= s@.len(),
    decreases s@.len() - from,
{
    let n = s.unicode_len();
    if from >= n {
        return 0;
    }
    let c = s.get_char(from);
    let v = c as u32;
    if 48 <= v && v <= 57 {
        let rest = digit_run(s, from + 1);
        rest + 1
    } else {
        0
    }
}

proof fn lemma_digits_val_nonneg(s: Seq<char>, from: int, to: int)
    requires
        0 <= from,
        forall|i: int| from <= i < to ==> is_digit_char(#[trigger] s[i]),
    ensures
        spec_digits_val(s, from, to) >= 0,
    decreases to - from,
{
    if to > from {
        lemma_digits_val_nonneg(s, from, to - 1);
        assert(spec_digits_val(s, from, to - 1) * 10 >= 0) by (nonlinear_arith)
            requires
                spec_digits_val(s, from, to - 1) >= 0,
        ;
    }
}

/// Accumulate the value of the digit run `s[from..to]`, exact while it
/// stays at or below `bound` and clamped to `bound + 1` beyond it.
fn digits_val_clamped(s: &str, from: usize, to: usize, bound: u128) -> (r: u128)
    requires
        from <= to <= s@.len(),
        forall|i: int| from <= i < to ==> is_digit_char(#[trigger] s@[i]),
        1 <= bound <= 0x1000_0000_0000_0000_0000_0000_0000,
    ensures
        spec_digits_val(s@, from as int, to as int) <= bound ==> r as int == spec_digits_val(
            s@,
            from as int,
            to as int,
        ),
        spec_digits_val(s@, from as int, to as int) > bound ==> r == bound + 1,
        r <= bound + 1,
{
    let mut acc: u128 = 0;
    let mut i = from;
    proof {
        lemma_digits_val_nonneg(s@, from as int, to as int);
    }
    while i < to
        invariant
            from <= i <= to <= s@.len(),
            forall|k: int| from <= k < to ==> is_digit_char(#[trigger] s@[k]),
            1 <= bound <= 0x1000_0000_0000_0000_0000_0000_0000,
            spec_digits_val(s@, from as int, i as int) <= bound ==> acc as int == spec_digits_val(
                s@,
                from as int,
                i as int,
            ),
            spec_digits_val(s@, from as int, i as int) > bound ==> acc == bound + 1,
            acc <= bound + 1,
        decreases to - i,
    {
        proof {
            lemma_digits_val_nonneg(s@, from as int, i as int);
        }
        let c = s.get_char(i);
        let d = (c as u32 - 48) as u128;
        if acc <= bound {
            let t = acc * 10 + d;
            acc = if t > bound {
                bound + 1
            } else {
                t
            };
        } else {
            acc = bound + 1;
        }
        i += 1;
    }
    acc
}

proof fn lemma_pow10_pos(n: int)
    ensures
        spec_pow10(n) >= 1,
    decreases n,
{
    if n > 0 {
        lemma_pow10_pos(n - 1);
    }
}

proof fn lemma_pow10_ge_huge(n: int)
    requires
        n >= 20,
    ensures
        spec_pow10(n) >= 0x1_0000_0000_0000_0000,
    decreases n,
{
    if n == 20 {
        reveal_with_fuel(spec_pow10, 21);
    } else {
        lemma_pow10_ge_huge(n - 1);
        assert(spec_pow10(n) == 10 * spec_pow10(n - 1));
    }
}

/// Multiply a clamped value by ten to the `k`, keeping the clamp: `tv` is
/// the value `v` stands for.
fn mul_pow10_clamped(v: u128, k: u64, bound: u128, Ghost(tv): Ghost<int>) -> (r: u128)
    requires
        1 <= bound <= 0x1000_0000_0000_0000_0000_0000_0000,
        k <= 20,
        tv >= 0,
        tv <= bound ==> v as int == tv,
        tv > bound ==> v == bound + 1,
        v <= bound + 1,
    ensures
        tv * spec_pow10(k as int) <= bound ==> r as int == tv * spec_pow10(k as int),
        tv * spec_pow10(k as int) > bound ==> r == bound + 1,
        r <= bound + 1,
{
    let mut acc = v;
    let mut j: u64 = 0;
    proof {
        assert(tv * spec_pow10(0) == tv) by (nonlinear_arith)
            requires
                spec_pow10(0) == 1,
        ;
    }
    while j < k
        invariant
            j <= k,
            1 <= bound <= 0x1000_0000_0000_0000_0000_0000_0000,
            tv >= 0,
            tv * spec_pow10(j as int) >= 0,
            tv * spec_pow10(j as int) <= bound ==> acc as int == tv * spec_pow10(j as int),
            tv * spec_pow10(j as int) > bound ==> acc == bound + 1,
            acc <= bound + 1,
        decreases k - j,
    {
        proof {
            lemma_pow10_pos(j as int);
            assert(tv * spec_pow10(j as int + 1) == (tv * spec_pow10(j as int)) * 10)
                by (nonlinear_arith)
                requires
                    spec_pow10(j as int + 1) == 10 * spec_pow10(j as int),
            ;
            assert(tv * spec_pow10(j as int + 1) >= tv * spec_pow10(j as int)) by (nonlinear_arith)
                requires
                    tv >= 0,
                    spec_pow10(j as int + 1) == 10 * spec_pow10(j as int),
                    spec_pow10(j as int) >= 1,
            ;
        }
        if acc <= bound {
            let t = acc * 10;
            acc = if t > bound {
                bound + 1
            } else {
                t
            };
        } else {
            acc = bound + 1;
        }
        j += 1;
    }
    acc
}

/// Parse the exponent suffix starting at `pm`, or report that it is
/// malformed.  The returned value is exact up to ten to the 23rd and
/// clamped one past it, far beyond any possible digit count.
fn parse_exponent(rest: &str, pm: usize) -> (r: Option<i128>)
    requires
        pm < rest@.len(),
    ensures
        match r {
            None => !spec_valid_exp(rest@, pm as int),
            Some(e) => spec_valid_exp(rest@, pm as int) && ({
                let te = spec_exp_val(rest@, pm as int);
                &&& -100_000_000_000_000_000_000_001 <= e <= 100_000_000_000_000_000_000_001
                &&& (e >= 0 ==> te >= e)
                &&& (e < 0 ==> te <= e)
                &&& (-100_000_000_000_000_000_000_000 <= e <= 100_000_000_000_000_000_000_000
                    ==> te == e)
            }),
        },
{
    let rn = rest.unicode_len();
    let ec = rest.get_char(pm);
    if ec != 'e' && ec != 'E' {
        return None;
    }
    let (esign, es2): (bool, usize) = if pm + 1 < rn {
        let sc = rest.get_char(pm + 1);
        if sc == '-' {
            (true, pm + 2)
        } else if sc == '+' {
            (false, pm + 2)
        } else {
            (false, pm + 1)
        }
    } else {
        (false, pm + 1)
    };
    proof {
        assert(es2 as int == spec_exp_digits_start(rest@, pm as int));
    }
    let c = digit_run(rest, es2);
    if c == 0 || es2 + c != rn {
        return None;
    }
    proof {
        lemma_run_digits(rest@, es2 as int, rn as int);
        lemma_digits_val_nonneg(rest@, es2 as int, rn as int);
    }
    let ev = digits_val_clamped(rest, es2, rn, 100_000_000_000_000_000_000_000);
    if esign {
        Some(-(ev as i128))
    } else {
        Some(ev as i128)
    }
}

/// Classify a numeric string: an optional sign, then "inf", "infinity" or
/// "nan" in any case, or a decimal literal whose value is truncated to a
/// saturating signed 64-bit integer; anything else is not a number.
#[verifier::rlimit(60)]
pub fn classify_number(s: &str) -> (r: NumClass)
    ensures
        r == spec_classify(s@),
{
    let n = s.unicode_len();
    let (neg, off): (bool, usize) = if n > 0 {
        let c0 = s.get_char(0);
        if c0 == '-' {
            (true, 1)
        } else if c0 == '+' {
            (false, 1)
        } else {
            (false, 0)
        }
    } else {
        (false, 0)
    };
    let rest = s.substring_char(off, n);
    proof {
        assert(rest@ =~= s@.skip(off as int));
    }
    if eq_upper(rest, "INF") || eq_upper(rest, "INFINITY") {
        return if neg {
            NumClass::NegInf
        } else {
            NumClass::PosInf
        };
    }
    if eq_upper(rest, "NAN") {
        return NumClass::NaN;
    }
    let rn = rest.unicode_len();
    let a = digit_run(rest, 0);
    let has_dot = a < rn && rest.get_char(a) == '.';
    let b: usize = if has_dot {
        digit_run(rest, a + 1)
    } else {
        0
    };
    let pm: usize = if has_dot {
        a + 1 + b
    } else {
        a
    };
    let ghost dig = spec_mantissa(rest@);
    proof {
        if has_dot {
            assert(dig =~= rest@.take(a as int) + rest@.subrange(
                a as int + 1,
                a as int + 1 + b as int,
            ));
        } else {
            assert(dig =~= rest@.take(a as int));
        }
        assert(pm as int == spec_mantissa_end(rest@));
        assert(dig.len() == a + b);
        lemma_run_digits(rest@, 0, a as int);
        if has_dot {
            lemma_run_digits(rest@, a as int + 1, a as int + 1 + b as int);
        }
        assert forall|k: int| 0 <= k < dig.len() implies is_digit_char(#[trigger] dig[k]) by {
            if k < a {
                assert(dig[k] == rest@[k]);
            } else {
                assert(dig[k] == rest@[k + 1]);
            }
        }
    }
    if a == 0 && b == 0 {
        return NumClass::NotNum;
    }
    let e_val: i128 = if pm == rn {
        0
    } else {
        match parse_exponent(rest, pm) {
            None => {
                return NumClass::NotNum;
            },
            Some(e) => e,
        }
    };
    let ghost true_e = spec_exp_val(rest@, pm as int);
    proof {
        assert(spec_valid_decimal(rest@));
        assert(e_val >= 0 ==> true_e >= e_val);
        assert(e_val < 0 ==> true_e <= e_val);
        assert(-100_000_000_000_000_000_000_000 <= e_val <= 100_000_000_000_000_000_000_000
            ==> true_e == e_val);
    }
    // the decimal point's final position among the mantissa digits
    let l: usize = a + b;
    let ghost true_point = a as int + true_e;
    let ghost true_mag = spec_trunc_mag(dig, true_point);
    let sat_bound: u128 = 0x8000_0000_0000_0000;
    proof {
        lemma_digits_val_nonneg(dig, 0, dig.len() as int);
    }
    let mag: u128 = if e_val < 0 && a as i128 + e_val <= 0 {
        proof {
            assert(true_point <= 0);
        }
        0
    } else if e_val >= 0 && a as i128 + e_val >= l as i128 {
        // the point lies at or past the last digit: scale the whole run
        let dv = digits_val_clamped_mantissa(rest, a, b, has_dot, sat_bound, Ghost(dig));
        proof {
            assert(true_point >= l as int);
            assert(true_mag == spec_digits_val(dig, 0, dig.len() as int) * spec_pow10(
                true_point - dig.len(),
            ));
        }
        if dv == 0 {
            proof {
                assert(spec_digits_val(dig, 0, dig.len() as int) == 0);
                assert(true_mag == 0) by (nonlinear_arith)
                    requires
                        true_mag == spec_digits_val(dig, 0, dig.len() as int) * spec_pow10(
                            true_point - dig.len(),
                        ),
                        spec_digits_val(dig, 0, dig.len() as int) == 0,
                ;
            }
            0
        } else {
            let k128: i128 = a as i128 + e_val - l as i128;
            if k128 >= 20 {
                proof {
                    assert(true_point - l as int >= 20);
                    lemma_pow10_ge_huge(true_point - l as int);
                    assert(spec_digits_val(dig, 0, dig.len() as int) >= 1);
                    assert(true_mag >= 0x1_0000_0000_0000_0000) by (nonlinear_arith)
                        requires
                            true_mag == spec_digits_val(dig, 0, dig.len() as int) * spec_pow10(
                                true_point - dig.len(),
                            ),
                            spec_digits_val(dig, 0, dig.len() as int) >= 1,
                            spec_pow10(true_point - dig.len()) >= 0x1_0000_0000_0000_0000,
                    ;
                }
                sat_bound + 1
            } else {
                proof {
                    assert(e_val <= 100_000_000_000_000_000_000_000);
                    assert(true_e == e_val);
                    assert(true_point - l as int == k128 as int);
                }
                mul_pow10_clamped(
                    dv,
                    k128 as u64,
                    sat_bound,
                    Ghost(spec_digits_val(dig, 0, dig.len() as int)),
                )
            }
        }
    } else {
        // the point falls inside the digit run
        proof {
            assert(e_val < 0 ==> e_val >= -100_000_000_000_000_000_000_000);
            assert(e_val >= 0 ==> e_val <= 100_000_000_000_000_000_000_000);
            assert(true_e == e_val);
        }
        let point: usize = (a as i128 + e_val) as usize;
        proof {
            assert(0 <= true_point < l as int);
            assert(point as int == true_point);
            assert(true_mag == spec_digits_val(dig, 0, point as int));
        }
        digits_val_clamped_mantissa_to(rest, a, b, has_dot, point, sat_bound, Ghost(dig))
    };
    proof {
        assert(spec_mag_of(rest@) == true_mag);
        assert(true_mag >= 0) by {
            if true_point > dig.len() || true_point <= 0 {
            } else {
                lemma_digits_val_nonneg(dig, 0, true_point);
            }
            if true_point >= dig.len() {
                lemma_pow10_pos(true_point - dig.len());
                assert(true_mag >= 0) by (nonlinear_arith)
                    requires
                        true_mag == spec_digits_val(dig, 0, dig.len() as int) * spec_pow10(
                            true_point - dig.len(),
                        ),
                        spec_digits_val(dig, 0, dig.len() as int) >= 0,
                        spec_pow10(true_point - dig.len()) >= 1,
                ;
            }
        }
    }
    if neg {
        if mag >= sat_bound {
            NumClass::Int(i64::MIN)
        } else {
            NumClass::Int(-(mag as i64))
        }
    } else {
        if mag > sat_bound - 1 {
            NumClass::Int(i64::MAX)
        } else {
            NumClass::Int(mag as i64)
        }
    }
}

/// Accumulate the mantissa's digit value across the integer and fraction
/// runs, clamped like `digits_val_clamped`.
fn digits_val_clamped_mantissa(
    s: &str,
    a: usize,
    b: usize,
    has_dot: bool,
    bound: u128,
    Ghost(dig): Ghost<Seq<char>>,
) -> (r: u128)
    requires
        a as int == digit_run_len(s@, 0),
        has_dot <==> (a < s@.len() && s@[a as int] == '.'),
        has_dot ==> b as int == digit_run_len(s@, a as int + 1),
        !has_dot ==> b == 0,
        dig == spec_mantissa(s@),
        1 <= bound <= 0x1000_0000_0000_0000_0000_0000_0000,
    ensures
        spec_digits_val(dig, 0, dig.len() as int) <= bound ==> r as int == spec_digits_val(
            dig,
            0,
            dig.len() as int,
        ),
        spec_digits_val(dig, 0, dig.len() as int) > bound ==> r == bound + 1,
        r <= bound + 1,
{
    let n = s.unicode_len();
    proof {
        assert(n as int == s@.len());
        lemma_digit_run_in_bounds(s@, 0);
        if has_dot {
            lemma_digit_run_in_bounds(s@, a as int + 1);
            assert(dig =~= s@.take(a as int) + s@.subrange(a as int + 1, a as int + 1 + b as int));
        } else {
            assert(dig =~= s@.take(a as int));
        }
        assert(dig.len() == a + b);
    }
    digits_val_clamped_mantissa_to(s, a, b, has_dot, a + b, bound, Ghost(dig))
}

/// Accumulate the first `upto` mantissa digits, clamped.
fn digits_val_clamped_mantissa_to(
    s: &str,
    a: usize,
    b: usize,
    has_dot: bool,
    upto: usize,
    bound: u128,
    Ghost(dig): Ghost<Seq<char>>,
) -> (r: u128)
    requires
        a as int == digit_run_len(s@, 0),
        has_dot <==> (a < s@.len() && s@[a as int] == '.'),
        has_dot ==> b as int == digit_run_len(s@, a as int + 1),
        !has_dot ==> b == 0,
        dig == spec_mantissa(s@),
        upto <= a + b,
        1 <= bound <= 0x1000_0000_0000_0000_0000_0000_0000,
    ensures
        spec_digits_val(dig, 0, upto as int) <= bound ==> r as int == spec_digits_val(
            dig,
            0,
            upto as int,
        ),
        spec_digits_val(dig, 0, upto as int) > bound ==> r == bound + 1,
        r <= bound + 1,
{
    proof {
        lemma_digit_run_in_bounds(s@, 0);
        if has_dot {
            lemma_digit_run_in_bounds(s@, a as int + 1);
            assert(dig =~= s@.take(a as int) + s@.subrange(a as int + 1, a as int + 1 + b as int));
        } else {
            assert(dig =~= s@.take(a as int));
        }
        assert(dig.len() == a + b);
        lemma_run_digits(s@, 0, a as int);
        if has_dot {
            lemma_run_digits(s@, a as int + 1, a as int + 1 + b as int);
        }
    }
    let mut acc: u128 = 0;
    let mut i: usize = 0;
    while i < upto
        invariant
            i <= upto <= a + b,
            a + b <= s@.len() + 1,
            a as int == digit_run_len(s@, 0),
            has_dot <==> (a < s@.len() && s@[a as int] == '.'),
            has_dot ==> a as int + 1 + b as int <= s@.len(),
            !has_dot ==> (b == 0 && a <= s@.len()),
            dig.len() == a + b,
            forall|k: int| 0 <= k < a ==> dig[k] == s@[k],
            forall|k: int| a <= k < a + b ==> dig[k] == s@[k + 1],
            forall|k: int| 0 <= k < dig.len() ==> is_digit_char(#[trigger] dig[k]),
            1 <= bound <= 0x1000_0000_0000_0000_0000_0000_0000,
            spec_digits_val(dig, 0, i as int) <= bound ==> acc as int == spec_digits_val(
                dig,
                0,
                i as int,
            ),
            spec_digits_val(dig, 0, i as int) > bound ==> acc == bound + 1,
            acc <= bound + 1,
        decreases upto - i,
    {
        proof {
            lemma_digits_val_nonneg(dig, 0, i as int);
        }
        let c = if i < a {
            s.get_char(i)
        } else {
            s.get_char(i + 1)
        };
        proof {
            assert(c == dig[i as int]);
        }
        let d = (c as u32 - 48) as u128;
        if acc <= bound {
            let t = acc * 10 + d;
            acc = if t > bound {
                bound + 1
            } else {
                t
            };
        } else {
            acc = bound + 1;
        }
        i += 1;
    }
    acc
}

// ---------------------------------------------------------------------------
// Ordinals and number words
// ---------------------------------------------------------------------------
/// The signed decimal numeral of an integer.
pub open spec fn spec_dec_signed(n: int) -> Seq<char> {
    if n < 0 {
        seq!['-'] + spec_dec(-n)
    } else {
        spec_dec(n)
    }
}

fn dec_i64(n: i64) -> (r: String)
    ensures
        r@ == spec_dec_signed(n as int),
{
    if n >= 0 {
        u128_to_dec(n as u128)
    } else {
        let mut out = String::new();
        push_char(&mut out, '-');
        let mag = u128_to_dec((-(n as i128)) as u128);
        out.append(mag.as_str());
        proof {
            assert(out@ =~= seq!['-'] + spec_dec(-(n as int)));
        }
        out
    }
}

/// The ordinal suffix for a value: "st", "nd", "rd" by the last digit, but
/// "th" throughout the teens, each looked up under its gendered context.
pub open spec fn spec_ordinal_suffix(t: Translations, male: bool, n: int) -> Seq<char> {
    let m = if n >= 0 {
        n
    } else {
        -n
    };
    let idx = if m % 100 == 11 || m % 100 == 12 || m % 100 == 13 {
        0
    } else {
        m % 10
    };
    if idx == 1 {
        spec_pgettext(
            t,
            if male {
                "1 (male)"@
            } else {
                "1 (female)"@
            },
            "st"@,
        )
    } else if idx == 2 {
        spec_pgettext(
            t,
            if male {
                "2 (male)"@
            } else {
                "2 (female)"@
            },
            "nd"@,
        )
    } else if idx == 3 {
        spec_pgettext(
            t,
            if male {
                "3 (male)"@
            } else {
                "3 (female)"@
            },
            "rd"@,
        )
    } else if idx == 0 {
        spec_pgettext(
            t,
            if male {
                "0 (male)"@
            } else {
                "0 (female)"@
            },
            "th"@,
        )
    } else if idx == 4 {
        spec_pgettext(
            t,
            if male {
                "4 (male)"@
            } else {
                "4 (female)"@
            },
            "th"@,
        )
    } else if idx == 5 {
        spec_pgettext(
            t,
            if male {
                "5 (male)"@
            } else {
                "5 (female)"@
            },
            "th"@,
        )
    } else if idx == 6 {
        spec_pgettext(
            t,
            if male {
                "6 (male)"@
            } else {
                "6 (female)"@
            },
            "th"@,
        )
    } else if idx == 7 {
        spec_pgettext(
            t,
            if male {
                "7 (male)"@
            } else {
                "7 (female)"@
            },
            "th"@,
        )
    } else if idx == 8 {
        spec_pgettext(
            t,
            if male {
                "8 (male)"@
            } else {
                "8 (female)"@
            },
            "th"@,
        )
    } else {
        spec_pgettext(
            t,
            if male {
                "9 (male)"@
            } else {
                "9 (female)"@
            },
            "th"@,
        )
    }
}

/// What `ordinal_gendered` returns: non-numbers pass through, the special
/// floating-point spellings render as themselves, and an integer gains its
/// ordinal suffix.
pub open spec fn spec_ordinal_gendered(t: Translations, s: Seq<char>, gender: Seq<char>) -> Seq<
    char,
> {
    match spec_classify(s) {
        NumClass::NotNum => s,
        NumClass::NaN => "NaN"@,
        NumClass::PosInf => "+Inf"@,
        NumClass::NegInf => "-Inf"@,
        NumClass::Int(n) => spec_dec_signed(n as int) + spec_ordinal_suffix(
            t,
            gender == "male"@,
            n as int,
        ),
    }
}

fn ordinal_suffix(t: &Translations, male: bool, n: i64) -> (r: String)
    ensures
        r@ == spec_ordinal_suffix(*t, male, n as int),
{
    let m: u64 = if n >= 0 {
        n as u64
    } else {
        proof {
            assert(-(n as i128) <= 0x8000_0000_0000_0000i128);
        }
        (-(n as i128)) as u64
    };
    let h = m % 100;
    let idx: u64 = if h == 11 || h == 12 || h == 13 {
        0
    } else {
        m % 10
    };
    if idx == 1 {
        t.pgettext(
            if male {
                "1 (male)"
            } else {
                "1 (female)"
            },
            "st",
        )
    } else if idx == 2 {
        t.pgettext(
            if male {
                "2 (male)"
            } else {
                "2 (female)"
            },
            "nd",
        )
    } else if idx == 3 {
        t.pgettext(
            if male {
                "3 (male)"
            } else {
                "3 (female)"
            },
            "rd",
        )
    } else if idx == 0 {
        t.pgettext(
            if male {
                "0 (male)"
            } else {
                "0 (female)"
            },
            "th",
        )
    } else if idx == 4 {
        t.pgettext(
            if male {
                "4 (male)"
            } else {
                "4 (female)"
            },
            "th",
        )
    } else if idx == 5 {
        t.pgettext(
            if male {
                "5 (male)"
            } else {
                "5 (female)"
            },
            "th",
        )
    } else if idx == 6 {
        t.pgettext(
            if male {
                "6 (male)"
            } else {
                "6 (female)"
            },
            "th",
        )
    } else if idx == 7 {
        t.pgettext(
            if male {
                "7 (male)"
            } else {
                "7 (female)"
            },
            "th",
        )
    } else if idx == 8 {
        t.pgettext(
            if male {
                "8 (male)"
            } else {
                "8 (female)"
            },
            "th",
        )
    } else {
        t.pgettext(
            if male {
                "9 (male)"
            } else {
                "9 (female)"
            },
            "th",
        )
    }
}

/// Convert a numeric string to its ordinal with gendered suffix lookup
/// ("1" gives "1st"); non-numeric strings pass through unchanged.
pub fn ordinal_gendered(value: &str, gender: &str, t: &Translations) -> (r: String)
    ensures
        r@ == spec_ordinal_gendered(*t, value@, gender@),
{
    let male = crate::text::str_eq(gender, "male");
    match classify_number(value) {
        NumClass::NotNum => value.to_owned(),
        NumClass::NaN => String::from_str("NaN"),
        NumClass::PosInf => String::from_str("+Inf"),
        NumClass::NegInf => String::from_str("-Inf"),
        NumClass::Int(n) => {
            let mut out = dec_i64(n);
            let suffix = ordinal_suffix(t, male, n);
            out.append(suffix.as_str());
            out
        },
    }
}

/// Convert a numeric string to its ordinal ("1" gives "1st", "11" gives
/// "11th"); non-numeric strings pass through unchanged.
pub fn ordinal(value: &str, t: &Translations) -> (r: String)
    ensures
        r@ == spec_ordinal_gendered(*t, value@, "male"@),
{
    ordinal_gendered(value, "male", t)
}

/// What `apnumber` returns: the number word for zero through nine, the
/// plain numeral for other integers, and pass-through otherwise.
pub open spec fn spec_apnumber(t: Translations, s: Seq<char>) -> Seq<char> {
    match spec_classify(s) {
        NumClass::NotNum => s,
        NumClass::NaN => "NaN"@,
        NumClass::PosInf => "+Inf"@,
        NumClass::NegInf => "-Inf"@,
        NumClass::Int(n) => {
            if n < 0 || n >= 10 {
                spec_dec_signed(n as int)
            } else {
                let word = if n == 0 {
                    "zero"@
                } else if n == 1 {
                    "one"@
                } else if n == 2 {
                    "two"@
                } else if n == 3 {
                    "three"@
                } else if n == 4 {
                    "four"@
                } else if n == 5 {
                    "five"@
                } else if n == 6 {
                    "six"@
                } else if n == 7 {
                    "seven"@
                } else if n == 8 {
                    "eight"@
                } else {
                    "nine"@
                };
                spec_gettext(t, word)
            }
        },
    }
}

/// Convert a small number to Associated Press style: zero through nine as
/// words, larger values as numerals, non-numbers unchanged.
pub fn apnumber(value: &str, t: &Translations) -> (r: String)
    ensures
        r@ == spec_apnumber(*t, value@),
{
    match classify_number(value) {
        NumClass::NotNum => value.to_owned(),
        NumClass::NaN => String::from_str("NaN"),
        NumClass::PosInf => String::from_str("+Inf"),
        NumClass::NegInf => String::from_str("-Inf"),
        NumClass::Int(n) => {
            if n < 0 || n >= 10 {
                dec_i64(n)
            } else if n == 0 {
                t.gettext("zero")
            } else if n == 1 {
                t.gettext("one")
            } else if n == 2 {
                t.gettext("two")
            } else if n == 3 {
                t.gettext("three")
            } else if n == 4 {
                t.gettext("four")
            } else if n == 5 {
                t.gettext("five")
            } else if n == 6 {
                t.gettext("six")
            } else if n == 7 {
                t.gettext("seven")
            } else if n == 8 {
                t.gettext("eight")
            } else {
                t.gettext("nine")
            }
        },
    }
}

proof fn lemma_digit_run_in_bounds(s: Seq<char>, i: int)
    requires
        0 <= i,
    ensures
        digit_run_len(s, i) >= 0,
        i <= s.len() ==> i + digit_run_len(s, i) <= s.len(),
    decreases s.len() - i,
{
    if i < s.len() && is_digit_char(s[i]) {
        lemma_digit_run_in_bounds(s, i + 1);
    }
}

proof fn lemma_run_digits(s: Seq<char>, from: int, to: int)
    requires
        0 <= from,
        to == from + digit_run_len(s, from),
    ensures
        forall|k: int| from <= k < to ==> is_digit_char(#[trigger] s[k]),
    decreases to - from,
{
    if digit_run_len(s, from) > 0 {
        lemma_run_digits(s, from + 1, to);
    }
}

/// Insert `sep` between three-digit groups of a decimal numeral, counted
/// from the right.
pub fn group_thousands(s: &str, sep: &str) -> (r: String)
    requires
        s@.len() >= 1,
        all_digits(s@),
    ensures
        r@ == spec_group(s@, sep@),
    decreases s@.len(),
{
    proof {
        lemma_digit_run_full(s@, 0);
        assert(!(s@[0] == '-')) by {
            assert(is_digit_char(s@[0]));
        }
    }
    match split_leading_group(s) {
        None => s.to_owned(),
        Some(p) => {
            let (a, b) = p;
            proof {
                assert(a@ =~= s@.take(s@.len() - 3));
                assert(b@ =~= s@.skip(s@.len() - 3));
                assert(all_digits(a@));
            }
            let mut g = group_thousands(a.as_str(), sep);
            g.append(sep);
            g.append(b.as_str());
            g
        },
    }
}

} // verus!
