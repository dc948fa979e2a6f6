//! Exact character-level string helpers: decimal rendering, zero padding,
//! pattern replacement and digit grouping, each pinned to a spec function.

use vstd::prelude::*;

verus! {

/// The character for a single decimal digit value.
pub open spec fn spec_digit_char(d: int) -> char {
    if d == 0 {
        '0'
    } else if d == 1 {
        '1'
    } else if d == 2 {
        '2'
    } else if d == 3 {
        '3'
    } else if d == 4 {
        '4'
    } else if d == 5 {
        '5'
    } else if d == 6 {
        '6'
    } else if d == 7 {
        '7'
    } else if d == 8 {
        '8'
    } else {
        '9'
    }
}

/// Decimal numeral of a non-negative integer, without sign or padding.
pub open spec fn spec_dec(n: int) -> Seq<char>
    decreases n,
{
    if n < 10 {
        seq![spec_digit_char(n)]
    } else {
        spec_dec(n / 10) + seq![spec_digit_char(n % 10)]
    }
}

/// Decimal numeral of `n` zero-padded on the left to exactly `width` digits
/// (the low `width` digits of `n`).
pub open spec fn spec_padded(n: int, width: int) -> Seq<char>
    decreases width,
{
    if width <= 0 {
        Seq::empty()
    } else {
        spec_padded(n / 10, width - 1) + seq![spec_digit_char(n % 10)]
    }
}

pub open spec fn is_digit_char(c: char) -> bool {
    48 <= c as u32 <= 57
}

pub open spec fn all_digits(s: Seq<char>) -> bool {
    forall|i: int| 0 <= i < s.len() ==> is_digit_char(#[trigger] s[i])
}

/// Every numeral produced by `spec_dec` is a non-empty run of digits.
pub proof fn lemma_spec_dec_digits(n: int)
    requires
        n >= 0,
    ensures
        spec_dec(n).len() >= 1,
        all_digits(spec_dec(n)),
    decreases n,
{
    if n >= 10 {
        lemma_spec_dec_digits(n / 10);
        assert forall|i: int| 0 <= i < spec_dec(n).len() implies is_digit_char(
            #[trigger] spec_dec(n)[i],
        ) by {
            if i < spec_dec(n / 10).len() {
                assert(spec_dec(n)[i] == spec_dec(n / 10)[i]);
            }
        }
    }
}

/// Leftmost, non-overlapping replacement of every occurrence of `pat` in `s`
/// by `rep` (the behaviour of `str::replace` for a non-empty pattern).
pub open spec fn spec_replace(s: Seq<char>, pat: Seq<char>, rep: Seq<char>) -> Seq<char>
    decreases s.len(),
{
    if pat.len() == 0 {
        s
    } else if s.len() < pat.len() {
        s
    } else if s.take(pat.len() as int) == pat {
        rep + spec_replace(s.skip(pat.len() as int), pat, rep)
    } else {
        seq![s[0]] + spec_replace(s.skip(1), pat, rep)
    }
}

/// Replacement of only the leftmost occurrence of `pat` in `s` by `rep`
/// (the behaviour of `str::replacen(pat, rep, 1)` for a non-empty pattern).
pub open spec fn spec_replace_first(s: Seq<char>, pat: Seq<char>, rep: Seq<char>) -> Seq<char>
    decreases s.len(),
{
    if pat.len() == 0 {
        s
    } else if s.len() < pat.len() {
        s
    } else if s.take(pat.len() as int) == pat {
        rep + s.skip(pat.len() as int)
    } else {
        seq![s[0]] + spec_replace_first(s.skip(1), pat, rep)
    }
}

/// A digit numeral split into groups of three from the right, the groups
/// joined by `sep` ("1141" with "," gives "1,141").
pub open spec fn spec_group(s: Seq<char>, sep: Seq<char>) -> Seq<char>
    decreases s.len(),
{
    if s.len() <= 3 {
        s
    } else {
        spec_group(s.take(s.len() - 3), sep) + sep + s.skip(s.len() - 3)
    }
}

/// A sequence of phrases joined by ", " (empty when there are none).
pub open spec fn spec_comma_join(ts: Seq<Seq<char>>) -> Seq<char>
    decreases ts.len(),
{
    if ts.len() == 0 {
        Seq::empty()
    } else if ts.len() == 1 {
        ts[0]
    } else {
        spec_comma_join(ts.take(ts.len() - 1)) + ", "@ + ts.last()
    }
}

/// Relies on `String::push`: appends exactly the given character.
#[verifier::external_body]
pub fn push_char(s: &mut String, c: char)
    ensures
        final(s)@ == old(s)@ + seq![c],
{
    s.push(c);
}

fn digit_str(d: u8) -> (r: &'static str)
    requires
        d < 10,
    ensures
        r@ == seq![spec_digit_char(d as int)],
{
    proof {
        reveal_strlit("0");
        reveal_strlit("1");
        reveal_strlit("2");
        reveal_strlit("3");
        reveal_strlit("4");
        reveal_strlit("5");
        reveal_strlit("6");
        reveal_strlit("7");
        reveal_strlit("8");
        reveal_strlit("9");
    }
    let r = match d {
        0 => "0",
        1 => "1",
        2 => "2",
        3 => "3",
        4 => "4",
        5 => "5",
        6 => "6",
        7 => "7",
        8 => "8",
        _ => "9",
    };
    proof {
        assert(r@ =~= seq![spec_digit_char(d as int)]);
    }
    r
}

/// Decimal rendering of an unsigned integer.
pub fn u128_to_dec(n: u128) -> (r: String)
    ensures
        r@ == spec_dec(n as int),
    decreases n,
{
    if n < 10 {
        String::from_str(digit_str(n as u8))
    } else {
        let mut s = u128_to_dec(n / 10);
        s.append(digit_str((n % 10) as u8));
        s
    }
}

/// Zero-padded decimal rendering of the low `width` digits of `n`.
pub fn padded_dec(n: u64, width: u32) -> (r: String)
    requires
        width <= 39,
    ensures
        r@ == spec_padded(n as int, width as int),
    decreases width,
{
    if width == 0 {
        let r = String::new();
        proof {
            assert(r@ =~= spec_padded(n as int, 0));
        }
        r
    } else {
        let mut s = padded_dec(n / 10, width - 1);
        s.append(digit_str((n % 10) as u8));
        s
    }
}

/// Character-for-character equality of two string slices.
pub fn str_eq(a: &str, b: &str) -> (r: bool)
    ensures
        r == (a@ == b@),
{
    let an = a.unicode_len();
    let bn = b.unicode_len();
    if an != bn {
        return false;
    }
    let mut i: usize = 0;
    while i < an
        invariant
            an == a@.len(),
            an == b@.len(),
            i <= an,
            forall|k: int| 0 <= k < i ==> a@[k] == b@[k],
        decreases an - i,
    {
        if a.get_char(i) != b.get_char(i) {
            return false;
        }
        i += 1;
    }
    proof {
        assert(a@ =~= b@);
    }
    true
}

/// Whether `pat` is a prefix of `s`.
fn starts_with(s: &str, pat: &str) -> (r: bool)
    ensures
        r == (s@.len() >= pat@.len() && s@.take(pat@.len() as int) == pat@),
{
    let n = s.unicode_len();
    let pn = pat.unicode_len();
    if n < pn {
        return false;
    }
    let mut i: usize = 0;
    while i < pn
        invariant
            n == s@.len(),
            pn == pat@.len(),
            pn <= n,
            i <= pn,
            forall|k: int| 0 <= k < i ==> s@[k] == pat@[k],
        decreases pn - i,
    {
        if s.get_char(i) != pat.get_char(i) {
            proof {
                assert(s@.take(pn as int)[i as int] == s@[i as int]);
            }
            return false;
        }
        i += 1;
    }
    proof {
        assert(s@.take(pn as int) =~= pat@);
    }
    true
}

/// Replace every occurrence of `pat` in `s` by `rep`.
pub fn replace_str(s: &str, pat: &str, rep: &str) -> (r: String)
    requires
        pat@.len() >= 1,
    ensures
        r@ == spec_replace(s@, pat@, rep@),
    decreases s@.len(),
{
    let n = s.unicode_len();
    let pn = pat.unicode_len();
    if n < pn {
        return s.to_owned();
    }
    if starts_with(s, pat) {
        let rest = s.substring_char(pn, n);
        proof {
            assert(rest@ =~= s@.skip(pat@.len() as int));
        }
        let tail = replace_str(rest, pat, rep);
        let mut out = String::from_str(rep);
        out.append(tail.as_str());
        out
    } else {
        let c = s.get_char(0);
        let rest = s.substring_char(1, n);
        proof {
            assert(rest@ =~= s@.skip(1));
        }
        let tail = replace_str(rest, pat, rep);
        let mut out = String::new();
        push_char(&mut out, c);
        out.append(tail.as_str());
        proof {
            assert(out@ =~= seq![s@[0]] + spec_replace(s@.skip(1), pat@, rep@));
        }
        out
    }
}

/// Replace the leftmost occurrence of `pat` in `s` by `rep`.
pub fn replace_first_str(s: &str, pat: &str, rep: &str) -> (r: String)
    requires
        pat@.len() >= 1,
    ensures
        r@ == spec_replace_first(s@, pat@, rep@),
    decreases s@.len(),
{
    let n = s.unicode_len();
    let pn = pat.unicode_len();
    if n < pn {
        return s.to_owned();
    }
    if starts_with(s, pat) {
        let rest = s.substring_char(pn, n);
        proof {
            assert(rest@ =~= s@.skip(pat@.len() as int));
        }
        let mut out = String::from_str(rep);
        out.append(rest);
        out
    } else {
        let c = s.get_char(0);
        let rest = s.substring_char(1, n);
        proof {
            assert(rest@ =~= s@.skip(1));
        }
        let tail = replace_first_str(rest, pat, rep);
        let mut out = String::new();
        push_char(&mut out, c);
        out.append(tail.as_str());
        proof {
            assert(out@ =~= seq![s@[0]] + spec_replace_first(s@.skip(1), pat@, rep@));
        }
        out
    }
}

} // verus!
