//! Accepting or rejecting a read by the share of it taken up by repeated windows.

use crate::collapse::{is_repeat, window_count};
use crate::nucleotide::chars_of;
use vstd::prelude::*;

verus! {

/// A non-negative percentage, held exactly as the fraction `num / den`.
/// Zero means "collapse unconditionally"; above zero it is a filter cutoff.
#[derive(Clone, Copy, Debug, PartialEq, Eq)]
pub struct Threshold {
    pub num: u32,
    pub den: u32,
}

impl Threshold {
    /// The fraction has a non-zero denominator.
    pub open spec fn wf(&self) -> bool {
        self.den > 0
    }

    /// The percentage `num / den`, or `None` where `den` is zero.
    pub fn new(num: u32, den: u32) -> (r: Option<Threshold>)
        ensures
            r is Some <==> den > 0,
            r matches Some(t) ==> t.num == num && t.den == den && t.wf(),
    {
        if den == 0 {
            None
        } else {
            Some(Threshold { num, den })
        }
    }

    /// The whole percentage `percent`.
    pub fn whole(percent: u32) -> (r: Threshold)
        ensures
            r.num == percent,
            r.den == 1,
            r.wf(),
    {
        Threshold { num: percent, den: 1 }
    }

    /// The threshold is zero, the setting that always collapses.
    pub fn is_zero(&self) -> (r: bool)
        ensures
            r == (self.num == 0),
    {
        self.num == 0
    }
}

/// Number of repeat windows among the first `n` windows of `s`.
pub open spec fn repeat_windows(s: Seq<char>, n: nat) -> nat
    decreases n,
{
    if n == 0 {
        0
    } else if is_repeat(s, n - 1) {
        repeat_windows(s, (n - 1) as nat) + 1
    } else {
        repeat_windows(s, (n - 1) as nat)
    }
}

/// Characters of `s` that lie in repeat windows.
pub open spec fn repeat_chars(s: Seq<char>) -> nat {
    2 * repeat_windows(s, window_count(s))
}

/// Characters of `s` that lie in complete windows: its length rounded down to even.
pub open spec fn paired_len(s: Seq<char>) -> nat {
    2 * window_count(s)
}

/// The repeat percentage `100 * repeat_chars / paired_len` is strictly above
/// `num / den`. With no complete window the percentage is zero.
pub open spec fn exceeds_threshold(s: Seq<char>, t: Threshold) -> bool {
    paired_len(s) > 0 && 100 * repeat_chars(s) * t.den > t.num * paired_len(s)
}

/// Rejects the read (`None`) when its repeat percentage is strictly above the
/// threshold; otherwise returns it unchanged.
pub fn collapse_dinuct_threshold(fastq_entry: &str, threshold: &Threshold) -> (r: Option<String>)
    requires
        threshold.wf(),
    ensures
        r is None <==> exceeds_threshold(fastq_entry@, *threshold),
        r matches Some(kept) ==> kept@ == fastq_entry@,
{
    let v = chars_of(fastq_entry);
    let mut cur_count: usize = 0;
    let mut len: usize = 0;
    let mut prev_c1: char = 'A';
    let mut prev_c2: char = 'A';
    let n: usize = v.len() / 2;
    let mut k: usize = 0;
    while k < n
        invariant
            v@ == fastq_entry@,
            n == window_count(v@),
            2 * n <= v.len(),
            k <= n,
            len == 2 * k,
            cur_count == 2 * repeat_windows(v@, k as nat),
            cur_count <= len,
            k == 0 ==> prev_c1 == 'A' && prev_c2 == 'A',
            k > 0 ==> prev_c1 == v@[2 * k - 2] && prev_c2 == v@[2 * k - 1],
        decreases n - k,
    {
        let c1 = v[2 * k];
        let c2 = v[2 * k + 1];
        len = len + 2;
        if c1 == prev_c1 && c2 == prev_c2 && c1 != c2 {
            cur_count = cur_count + 2;
        }
        assert((c1 == prev_c1 && c2 == prev_c2 && c1 != c2) == is_repeat(v@, k as int));
        prev_c1 = c1;
        prev_c2 = c2;
        k = k + 1;
    }
    if len == 0 {
        return Some(String::from_str(fastq_entry));
    }
    let count_wide = cur_count as u128;
    let len_wide = len as u128;
    let den_wide = threshold.den as u128;
    let num_wide = threshold.num as u128;
    assert(count_wide * den_wide <= 0xffff_ffff_ffff_ffff * 0xffff_ffffu128) by (nonlinear_arith)
        requires
            count_wide <= 0xffff_ffff_ffff_ffff,
            den_wide <= 0xffff_ffff,
    ;
    assert(num_wide * len_wide <= 0xffff_ffff * 0xffff_ffff_ffff_ffffu128) by (nonlinear_arith)
        requires
            len_wide <= 0xffff_ffff_ffff_ffff,
            num_wide <= 0xffff_ffff,
    ;
    let scaled_count = 100 * (count_wide * den_wide);
    let scaled_cutoff = num_wide * len_wide;
    assert(scaled_count == 100 * cur_count * threshold.den) by (nonlinear_arith)
        requires
            scaled_count == 100 * (count_wide * den_wide),
            count_wide == cur_count,
            den_wide == threshold.den,
    ;
    if scaled_count > scaled_cutoff {
        None
    } else {
        Some(String::from_str(fastq_entry))
    }
}

/// `c` is one of the digits `0` to `9`.
pub open spec fn is_digit(c: char) -> bool {
    '0' <= c && c <= '9'
}

/// Every character of `d` is a digit.
pub open spec fn all_digits(d: Seq<char>) -> bool {
    forall|i: int| 0 <= i < d.len() ==> is_digit(#[trigger] d[i])
}

/// The number that the decimal digits `d` spell, most significant first.
pub open spec fn digits_value(d: Seq<char>) -> nat
    decreases d.len(),
{
    if d.len() == 0 {
        0
    } else {
        10 * digits_value(d.drop_last()) + (d.last() as nat - '0' as nat) as nat
    }
}

/// Ten to the power `n`.
pub open spec fn pow10(n: nat) -> nat
    decreases n,
{
    if n == 0 {
        1
    } else {
        10 * pow10((n - 1) as nat)
    }
}

/// Number of digits at the start of `s`.
pub open spec fn leading_digits(s: Seq<char>) -> nat
    decreases s.len(),
{
    if s.len() == 0 || !is_digit(s[0]) {
        0
    } else {
        1 + leading_digits(s.drop_first())
    }
}

/// The digits after the decimal point, if there is one.
pub open spec fn fraction_digits(s: Seq<char>) -> Seq<char> {
    if leading_digits(s) < s.len() {
        s.skip(leading_digits(s) + 1int)
    } else {
        Seq::empty()
    }
}

/// `s` is a plain decimal: one or more digits, then optionally a point and
/// zero or more digits.
pub open spec fn is_decimal(s: Seq<char>) -> bool {
    &&& leading_digits(s) > 0
    &&& leading_digits(s) < s.len() ==> s[leading_digits(s) as int] == '.' && all_digits(
        fraction_digits(s),
    )
}

/// The numerator of the decimal `s`: all of its digits read as one number.
pub open spec fn decimal_num(s: Seq<char>) -> nat {
    digits_value(s.take(leading_digits(s) as int) + fraction_digits(s))
}

/// The denominator of the decimal `s`: ten to the number of digits after the point.
pub open spec fn decimal_den(s: Seq<char>) -> nat {
    pow10(fraction_digits(s).len())
}

proof fn lemma_leading_digits(s: Seq<char>, i: int)
    requires
        0 <= i <= s.len(),
        all_digits(s.take(i)),
        i == s.len() || !is_digit(s[i]),
    ensures
        leading_digits(s) == i,
    decreases i,
{
    if i > 0 {
        assert(is_digit(s.take(i)[0]));
        let t = s.drop_first();
        assert forall|j: int| 0 <= j < i - 1 implies is_digit(#[trigger] t.take(i - 1)[j]) by {
            assert(s.take(i)[j + 1] == t.take(i - 1)[j]);
        }
        lemma_leading_digits(t, i - 1);
    }
}

/// Appending digits never makes the number smaller.
proof fn lemma_digits_value_grows(d: Seq<char>, e: Seq<char>)
    requires
        all_digits(e),
    ensures
        digits_value(d + e) >= digits_value(d),
    decreases e.len(),
{
    if e.len() > 0 {
        let init = e.drop_last();
        assert forall|i: int| 0 <= i < init.len() implies is_digit(#[trigger] init[i]) by {
            assert(init[i] == e[i]);
        }
        lemma_digits_value_grows(d, init);
        assert((d + e).drop_last() =~= d + init);
        assert(is_digit(e[e.len() - 1]));
    }
}

proof fn lemma_pow10_grows(m: nat, n: nat)
    requires
        m <= n,
    ensures
        pow10(m) <= pow10(n),
    decreases n,
{
    if m < n {
        lemma_pow10_grows(m, (n - 1) as nat);
    }
}

/// The number that the digits `d` spell, or `None` where it exceeds `u32`.
fn digits_number(d: &Vec<char>) -> (r: Option<u32>)
    requires
        all_digits(d@),
    ensures
        r is Some <==> digits_value(d@) <= u32::MAX,
        r matches Some(n) ==> n == digits_value(d@),
{
    let mut num: u64 = 0;
    let mut i: usize = 0;
    while i < d.len()
        invariant
            all_digits(d@),
            i <= d.len(),
            num == digits_value(d@.take(i as int)),
            num <= u32::MAX,
        decreases d.len() - i,
    {
        let c = d[i];
        assert(is_digit(d@[i as int]));
        proof {
            assert(d@.take(i + 1).drop_last() =~= d@.take(i as int));
        }
        num = num * 10 + (c as u64 - '0' as u64);
        i = i + 1;
        if num > 0xffff_ffff {
            proof {
                let rest = d@.skip(i as int);
                assert forall|j: int| 0 <= j < rest.len() implies is_digit(#[trigger] rest[j]) by {
                    assert(rest[j] == d@[i + j]);
                }
                lemma_digits_value_grows(d@.take(i as int), rest);
                assert(d@.take(i as int) + rest =~= d@);
            }
            return None;
        }
    }
    assert(d@.take(d.len() as int) =~= d@);
    Some(num as u32)
}

/// Ten to the power `n`, or `None` where it exceeds `u32`.
fn pow10_number(n: usize) -> (r: Option<u32>)
    ensures
        r is Some <==> pow10(n as nat) <= u32::MAX,
        r matches Some(p) ==> p == pow10(n as nat) && p >= 1,
{
    let mut p: u64 = 1;
    let mut i: usize = 0;
    while i < n
        invariant
            i <= n,
            p == pow10(i as nat),
            1 <= p <= u32::MAX,
        decreases n - i,
    {
        p = p * 10;
        i = i + 1;
        if p > 0xffff_ffff {
            proof {
                lemma_pow10_grows(i as nat, n as nat);
            }
            return None;
        }
    }
    Some(p as u32)
}

/// Reads a threshold written as a plain decimal (`22`, `22.`, `0.25`) exactly as
/// the fraction of its digits over a power of ten. `None` for any other text, or
/// where numerator or denominator would exceed `u32`.
pub fn parse_threshold(text: &str) -> (r: Option<Threshold>)
    ensures
        r is Some <==> is_decimal(text@) && decimal_num(text@) <= u32::MAX && decimal_den(text@)
            <= u32::MAX,
        r matches Some(t) ==> t.wf() && t.num == decimal_num(text@) && t.den == decimal_den(
            text@,
        ),
{
    let v = chars_of(text);
    let ghost s = text@;
    let mut p: usize = 0;
    while p < v.len() && '0' <= v[p] && v[p] <= '9'
        invariant
            v@ == s,
            s == text@,
            p <= v.len(),
            all_digits(s.take(p as int)),
        decreases v.len() - p,
    {
        p = p + 1;
        proof {
            assert forall|j: int| 0 <= j < p implies is_digit(#[trigger] s.take(p as int)[j]) by {
                if j < p - 1 {
                    assert(s.take(p as int)[j] == s.take(p - 1)[j]);
                }
            }
        }
    }
    proof {
        lemma_leading_digits(s, p as int);
    }
    if p == 0 {
        return None;
    }
    if p < v.len() && v[p] != '.' {
        return None;
    }
    let mut digits: Vec<char> = Vec::new();
    let mut i: usize = 0;
    while i < p
        invariant
            v@ == s,
            s == text@,
            p <= v.len(),
            i <= p,
            all_digits(s.take(p as int)),
            leading_digits(s) == p,
            digits@ =~= s.take(i as int),
        decreases p - i,
    {
        digits.push(v[i]);
        i = i + 1;
    }
    let mut frac_len: usize = 0;
    if p < v.len() {
        let mut j: usize = p + 1;
        while j < v.len()
            invariant
                v@ == s,
                s == text@,
            s == text@,
                p < v.len(),
                p + 1 <= j <= v.len(),
                frac_len == j - p - 1,
                leading_digits(s) == p,
                all_digits(s.take(p as int)),
                all_digits(s.subrange(p + 1, j as int)),
                digits@ =~= s.take(p as int) + s.subrange(p + 1, j as int),
            decreases v.len() - j,
        {
            let c = v[j];
            if !('0' <= c && c <= '9') {
                proof {
                    assert(leading_digits(s) < s.len());
                    assert(fraction_digits(s) == s.skip(p + 1));
                    assert(fraction_digits(s)[j - p - 1] == c);
                    assert(!is_digit(fraction_digits(s)[j - p - 1]));
                    assert(!all_digits(fraction_digits(s)));
                }
                return None;
            }
            digits.push(c);
            j = j + 1;
            frac_len = frac_len + 1;
            proof {
                assert forall|k: int| 0 <= k < j - p - 1 implies is_digit(
                    #[trigger] s.subrange(p + 1, j as int)[k],
                ) by {
                    if k < j - p - 2 {
                        assert(s.subrange(p + 1, j as int)[k] == s.subrange(p + 1, j - 1)[k]);
                    }
                }
            }
        }
        assert(s.subrange(p + 1, v.len() as int) =~= fraction_digits(s));
        assert(frac_len == fraction_digits(s).len());
    } else {
        assert(s.take(p as int) + fraction_digits(s) =~= s.take(p as int));
    }
    assert(all_digits(digits@)) by {
        assert forall|k: int| 0 <= k < digits@.len() implies is_digit(#[trigger] digits@[k]) by {
            if k < p {
                assert(digits@[k] == s.take(p as int)[k]);
            } else {
                assert(digits@[k] == fraction_digits(s)[k - p]);
            }
        }
    }
    let num = match digits_number(&digits) {
        Some(n) => n,
        None => return None,
    };
    let den = match pow10_number(frac_len) {
        Some(d) => d,
        None => return None,
    };
    Some(Threshold { num, den })
}

} // verus!
