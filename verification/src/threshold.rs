//! Growth thresholds: absolute sizes, or percentages of the baseline.

use vstd::prelude::*;

use crate::decimal::{fits_places, parse_scientific, parts_zero, scaled_floor, scientific_parts};
use crate::error::WasmCheckError;
use crate::size::{size_from_text, size_text, Size};
use crate::text::{
    chars_of, copy_range, dec, digit_char, push_decimal, string_from_chars, trim, trim_chars,
};

verus! {

/// A percentage with up to two decimal places, stored in hundredths of a
/// percent — `5%` is `500`, `0.5%` is `50`.
#[derive(Debug, Clone, Copy, Default, PartialEq, Eq, Structural, PartialOrd, Ord, Hash)]
pub struct Percent(u32);

impl View for Percent {
    type V = u32;

    closed spec fn view(&self) -> u32 {
        self.0
    }
}

/// `hundredths` hundredths of a percent of `baseline`, truncated to whole
/// bytes and capped at `u64::MAX`.
pub open spec fn percent_of(hundredths: u32, baseline: u64) -> u64 {
    let bytes = (baseline * hundredths) / 10000;
    if bytes > u64::MAX {
        u64::MAX
    } else {
        bytes as u64
    }
}

/// The number part of a percentage string: trimmed, without one trailing `%`,
/// trimmed again.
pub open spec fn percent_number(s: Seq<char>) -> Seq<char> {
    let t = trim(s);
    if t.len() > 0 && t.last() == '%' {
        trim(t.drop_last())
    } else {
        t
    }
}

/// The hundredths a percentage string denotes; the number may carry an
/// exponent (`1e1`, `2.5E-1`). `None` when the number is malformed or
/// negative, has a non-zero digit past the second decimal place, or does not
/// fit in a `u32` as hundredths.
pub open spec fn percent_from_text(s: Seq<char>) -> Option<u32> {
    match scientific_parts(percent_number(s)) {
        Some((negative, int_digits, frac_digits)) => {
            let h = scaled_floor(int_digits, frac_digits, 100);
            if negative && !parts_zero(int_digits, frac_digits) {
                None
            } else if !fits_places(frac_digits, 2) {
                None
            } else if h <= u32::MAX {
                Some(h as u32)
            } else {
                None
            }
        },
        None => None,
    }
}

/// The minimal exact rendering of a percentage: `"5%"`, `"0.5%"`,
/// `"12.25%"`.
pub open spec fn percent_text(hundredths: u32) -> Seq<char> {
    let whole = (hundredths / 100) as nat;
    let f = (hundredths % 100) as nat;
    if f == 0 {
        dec(whole) + "%"@
    } else if f % 10 == 0 {
        dec(whole) + seq!['.', digit_char(f / 10)] + "%"@
    } else {
        dec(whole) + seq!['.', digit_char(f / 10), digit_char(f % 10)] + "%"@
    }
}

impl Percent {
    /// Wraps a value expressed in hundredths of a percent (`500` = `5%`).
    pub fn from_hundredths(hundredths: u32) -> (r: Self)
        ensures
            r@ == hundredths,
    {
        Percent(hundredths)
    }

    /// The value in hundredths of a percent.
    pub fn hundredths(self) -> (r: u32)
        ensures
            r == self@,
    {
        self.0
    }

    /// The percentage holding `hundredths`, for specifications.
    pub closed spec fn spec_from_hundredths(hundredths: u32) -> Percent {
        Percent(hundredths)
    }

    pub proof fn lemma_spec_from_hundredths(hundredths: u32)
        ensures
            Percent::spec_from_hundredths(hundredths)@ == hundredths,
    {
    }

    /// Two percentages with the same hundredths are the same percentage.
    pub proof fn lemma_view_eq(a: Percent, b: Percent)
        requires
            a@ == b@,
        ensures
            a == b,
    {
    }

    /// `self` percent of `baseline`, truncated to whole bytes.
    pub fn of(self, baseline: u64) -> (r: u64)
        ensures
            r == percent_of(self@, baseline),
    {
        let b = baseline as u128;
        let h = self.0 as u128;
        assert(b * h <= 0xffff_ffff_ffff_ffffu128 * 0xffff_ffffu128) by (nonlinear_arith)
            requires
                b <= 0xffff_ffff_ffff_ffffu128,
                h <= 0xffff_ffffu128,
        ;
        let scaled = b * h;
        let bytes = scaled / 10000;
        if bytes > u64::MAX as u128 {
            u64::MAX
        } else {
            bytes as u64
        }
    }

    /// Parses `"5%"`, `"0.5%"` or a bare `"5"` (the `%` is implied).
    ///
    /// Values that are negative, out of range, or not exact in two decimal
    /// places (`"0.125%"`) are rejected with
    /// [`WasmCheckError::InvalidPercent`], which carries the trimmed input.
    pub fn parse(s: &str) -> (r: Result<Self, WasmCheckError>)
        ensures
            percent_from_text(s@) matches Some(h) ==> (r matches Ok(p) && p@ == h),
            percent_from_text(s@) is None ==> (r matches Err(WasmCheckError::InvalidPercent(t))
                && t@ == trim(s@)),
    {
        let chars = chars_of(s);
        let trimmed = trim_chars(chars.as_slice());
        let n = trimmed.len();
        let number = if n > 0 && trimmed[n - 1] == '%' {
            let body = copy_range(trimmed.as_slice(), 0, n - 1);
            assert(body@ =~= trimmed@.drop_last());
            trim_chars(body.as_slice())
        } else {
            trimmed.clone()
        };
        match parse_scientific(number.as_slice(), 100, 2) {
            Some((scaled, exact)) => {
                if (scaled.negative && !scaled.zero) || !exact || !scaled.fits || scaled.value
                    > u32::MAX as u64 {
                    Err(WasmCheckError::InvalidPercent(string_from_chars(trimmed.as_slice())))
                } else {
                    Ok(Percent(scaled.value as u32))
                }
            },
            None => Err(WasmCheckError::InvalidPercent(string_from_chars(trimmed.as_slice()))),
        }
    }

    /// Formats the minimal exact form: `"5%"`, `"0.5%"`, `"12.25%"`.
    pub fn to_text(&self) -> (r: String)
        ensures
            r@ == percent_text(self@),
    {
        let whole = self.0 / 100;
        let f = self.0 % 100;
        let mut out: Vec<char> = Vec::new();
        push_decimal(&mut out, whole as u64);
        if f == 0 {
        } else if f % 10 == 0 {
            out.push('.');
            out.push((48u8 + (f / 10) as u8) as char);
        } else {
            out.push('.');
            out.push((48u8 + (f / 10) as u8) as char);
            out.push((48u8 + (f % 10) as u8) as char);
        }
        out.push('%');
        proof {
            reveal_strlit("%");
        }
        assert(out@ =~= percent_text(self@));
        string_from_chars(out.as_slice())
    }
}

impl std::str::FromStr for Percent {
    type Err = WasmCheckError;

    fn from_str(s: &str) -> (r: Result<Self, Self::Err>)
        ensures
            percent_from_text(s@) matches Some(h) ==> (r matches Ok(p) && p@ == h),
            percent_from_text(s@) is None ==> (r matches Err(WasmCheckError::InvalidPercent(t))
                && t@ == trim(s@)),
    {
        Percent::parse(s)
    }
}

/// How much a bundle is allowed to grow over its baseline.
#[derive(Debug, Clone, Copy, PartialEq, Eq, Structural, Hash)]
pub enum Threshold {
    /// An absolute allowance, in bytes.
    Bytes(Size),
    /// An allowance relative to the baseline.
    Percent(Percent),
}

/// `a + b`, capped at `u64::MAX`.
pub open spec fn sat_add(a: u64, b: u64) -> u64 {
    if a + b > u64::MAX {
        u64::MAX
    } else {
        (a + b) as u64
    }
}

/// The largest value a threshold allows over `baseline`.
pub open spec fn threshold_allowed(t: Threshold, baseline: u64) -> u64 {
    match t {
        Threshold::Bytes(size) => sat_add(baseline, size@),
        Threshold::Percent(p) => sat_add(baseline, percent_of(p@, baseline)),
    }
}

/// The threshold a string denotes: a percentage when the trimmed string ends
/// with `%`, else a size.
pub open spec fn threshold_from_text(s: Seq<char>) -> Option<Threshold> {
    let t = trim(s);
    if t.len() > 0 && t.last() == '%' {
        match percent_from_text(s) {
            Some(h) => Some(Threshold::Percent(Percent::spec_from_hundredths(h))),
            None => None,
        }
    } else {
        match size_from_text(s) {
            Some(b) => Some(Threshold::Bytes(Size::spec_from_bytes(b))),
            None => None,
        }
    }
}

/// The rendering of a threshold: its size or its percentage.
pub open spec fn threshold_text(t: Threshold) -> Seq<char> {
    match t {
        Threshold::Bytes(size) => size_text(size@),
        Threshold::Percent(p) => percent_text(p@),
    }
}

fn sat_add_u64(a: u64, b: u64) -> (r: u64)
    ensures
        r == sat_add(a, b),
{
    if a > u64::MAX - b {
        u64::MAX
    } else {
        a + b
    }
}

impl Threshold {
    /// The largest value allowed when `baseline` is the reference.
    pub fn allowed(self, baseline: u64) -> (r: u64)
        ensures
            r == threshold_allowed(self, baseline),
            r >= baseline,
    {
        match self {
            Threshold::Bytes(bytes) => sat_add_u64(baseline, bytes.bytes()),
            Threshold::Percent(percent) => sat_add_u64(baseline, percent.of(baseline)),
        }
    }

    /// Parses `"50 KB"` as an absolute allowance and `"5%"` as a relative one.
    ///
    /// Fails with [`WasmCheckError::InvalidSize`] or
    /// [`WasmCheckError::InvalidPercent`] depending on the suffix.
    pub fn parse(s: &str) -> (r: Result<Self, WasmCheckError>)
        ensures
            threshold_from_text(s@) matches Some(t) ==> r == Ok::<Threshold, WasmCheckError>(t),
            threshold_from_text(s@) is None && trim(s@).len() > 0 && trim(s@).last() == '%' ==> (
            r matches Err(WasmCheckError::InvalidPercent(t)) && t@ == trim(s@)),
            threshold_from_text(s@) is None && !(trim(s@).len() > 0 && trim(s@).last() == '%') ==> (
            r matches Err(WasmCheckError::InvalidSize(t)) && t@ == trim(s@)),
    {
        let chars = chars_of(s);
        let trimmed = trim_chars(chars.as_slice());
        let n = trimmed.len();
        if n > 0 && trimmed[n - 1] == '%' {
            match Percent::parse(s) {
                Ok(p) => {
                    proof {
                        Percent::lemma_spec_from_hundredths(p@);
                        Percent::lemma_view_eq(p, Percent::spec_from_hundredths(p@));
                    }
                    Ok(Threshold::Percent(p))
                },
                Err(e) => Err(e),
            }
        } else {
            match Size::parse(s) {
                Ok(size) => {
                    proof {
                        Size::lemma_spec_from_bytes(size@);
                        Size::lemma_view_eq(size, Size::spec_from_bytes(size@));
                    }
                    Ok(Threshold::Bytes(size))
                },
                Err(e) => Err(e),
            }
        }
    }

    /// Formats the threshold: `"50 KB"` or `"5%"`.
    pub fn to_text(&self) -> (r: String)
        ensures
            r@ == threshold_text(*self),
    {
        match self {
            Threshold::Bytes(bytes) => bytes.to_text(),
            Threshold::Percent(percent) => percent.to_text(),
        }
    }
}

impl std::str::FromStr for Threshold {
    type Err = WasmCheckError;

    fn from_str(s: &str) -> (r: Result<Self, Self::Err>)
        ensures
            threshold_from_text(s@) matches Some(t) ==> r == Ok::<Threshold, WasmCheckError>(t),
            threshold_from_text(s@) is None && trim(s@).len() > 0 && trim(s@).last() == '%' ==> (
            r matches Err(WasmCheckError::InvalidPercent(t)) && t@ == trim(s@)),
            threshold_from_text(s@) is None && !(trim(s@).len() > 0 && trim(s@).last() == '%') ==> (
            r matches Err(WasmCheckError::InvalidSize(t)) && t@ == trim(s@)),
    {
        Threshold::parse(s)
    }
}

} // verus!

verus! {

proof fn lemma_percent_number_of_text(body: Seq<char>)
    requires
        body.len() > 0,
        crate::text::is_digit(body[0]),
        crate::text::is_digit(body.last()),
        forall|i: int| 0 <= i < body.len() ==> crate::text::is_digit(#[trigger] body[i]) || body[i]
            == '.',
    ensures
        percent_number(body + "%"@) == body,
        trim(body + "%"@) == body + "%"@,
        scientific_parts(body) == crate::decimal::decimal_parts(body),
{
    crate::decimal::lemma_no_exponent(body);
    reveal_strlit("%");
    let t = body + "%"@;
    assert(t[0] == body[0]);
    assert(t.last() == '%');
    crate::text::lemma_trim_noop(t);
    assert(t.drop_last() =~= body);
    crate::text::lemma_trim_noop(body);
}

/// A percentage renders to text that parses back to the same percentage.
pub proof fn law_percent_text_roundtrip(hundredths: u32)
    ensures
        percent_from_text(percent_text(hundredths)) == Some(hundredths),
{
    let w = (hundredths / 100) as nat;
    let f = (hundredths % 100) as nat;
    crate::text::lemma_dec_roundtrip(w);
    let d = dec(w);
    assert(crate::text::is_digit(d[0]));
    assert(crate::text::is_digit(d.last()));
    vstd::arithmetic::power::lemma_pow1(10);
    vstd::arithmetic::power::lemma_pow0(10);
    assert(crate::text::all_digits(d));
    if f == 0 {
        lemma_percent_number_of_text(d);
        crate::decimal::lemma_parts_of_dec(w);
        assert(scaled_floor(d, Seq::<char>::empty(), 100) == w * 100);
    } else if f % 10 == 0 {
        let fp = seq![digit_char(f / 10)];
        crate::text::lemma_digit_roundtrip(f / 10);
        let body = d + seq!['.'] + fp;
        assert(body[0] == d[0]);
        assert(body.last() == digit_char(f / 10));
        assert forall|i: int| 0 <= i < body.len() implies crate::text::is_digit(#[trigger] body[i])
            || body[i] == '.' by {
            if i < d.len() {
                assert(body[i] == d[i]);
            }
        }
        lemma_percent_number_of_text(body);
        assert(crate::text::all_digits(fp));
        crate::decimal::lemma_parts_of_dec_frac(w, fp);
        assert(fp.drop_last() =~= Seq::<char>::empty());
        assert(crate::text::digits_val(fp) == f / 10);
        assert(vstd::arithmetic::power::pow(10, fp.len()) == 10);
        assert(scaled_floor(d, fp, 100) == w * 100 + ((f / 10) * 100) / 10);
        assert(((f / 10) * 100) / 10 == f);
        assert(percent_text(hundredths) == d + seq!['.', digit_char(f / 10)] + "%"@);
        assert(d + seq!['.', digit_char(f / 10)] =~= body);
    } else {
        let fp = seq![digit_char(f / 10), digit_char(f % 10)];
        crate::text::lemma_digit_roundtrip(f / 10);
        crate::text::lemma_digit_roundtrip(f % 10);
        let body = d + seq!['.'] + fp;
        assert(body[0] == d[0]);
        assert(body.last() == digit_char(f % 10));
        assert forall|i: int| 0 <= i < body.len() implies crate::text::is_digit(#[trigger] body[i])
            || body[i] == '.' by {
            if i < d.len() {
                assert(body[i] == d[i]);
            } else if i > d.len() {
                assert(body[i] == fp[i - d.len() - 1]);
            }
        }
        lemma_percent_number_of_text(body);
        assert(crate::text::all_digits(fp));
        crate::decimal::lemma_parts_of_dec_frac(w, fp);
        assert(fp.drop_last() =~= seq![digit_char(f / 10)]);
        let one = seq![digit_char(f / 10)];
        assert(one.drop_last() =~= Seq::<char>::empty());
        assert(one.last() == digit_char(f / 10));
        assert(crate::text::digits_val(Seq::<char>::empty()) == 0);
        assert(crate::text::digits_val(one) == crate::text::digits_val(one.drop_last()) * 10
            + crate::text::digit_of(one.last()));
        assert(crate::text::digits_val(one) == f / 10);
        assert(fp.last() == digit_char(f % 10));
        assert(crate::text::digits_val(fp) == (f / 10) * 10 + f % 10);
        vstd::arithmetic::power::lemma_pow_adds(10, 1, 1);
        assert(vstd::arithmetic::power::pow(10, fp.len()) == 100);
        assert(scaled_floor(d, fp, 100) == w * 100 + (f * 100) / 100);
        assert(percent_text(hundredths) == d + seq!['.', digit_char(f / 10), digit_char(f % 10)]
            + "%"@);
        assert(d + seq!['.', digit_char(f / 10), digit_char(f % 10)] =~= body);
    }
}

/// A threshold renders to text that parses back to the same threshold.
pub proof fn law_threshold_text_roundtrip(t: Threshold)
    ensures
        threshold_from_text(threshold_text(t)) == Some(t),
{
    match t {
        Threshold::Bytes(size) => {
            crate::size::law_size_text_roundtrip(size@);
            let s = size_text(size@);
            reveal_strlit(" MB");
            reveal_strlit(" KB");
            reveal_strlit(" B");
            crate::text::lemma_dec_roundtrip((size@ / 1048576) as nat);
            crate::text::lemma_dec_roundtrip((size@ / 1024) as nat);
            crate::text::lemma_dec_roundtrip(size@ as nat);
            assert(s.last() == 'B');
            assert(crate::text::is_digit(s[0]));
            crate::text::lemma_trim_noop(s);
            Size::lemma_spec_from_bytes(size@);
            Size::lemma_view_eq(size, Size::spec_from_bytes(size@));
        },
        Threshold::Percent(p) => {
            law_percent_text_roundtrip(p@);
            let s = percent_text(p@);
            reveal_strlit("%");
            crate::text::lemma_dec_roundtrip((p@ / 100) as nat);
            assert(s.last() == '%');
            assert(crate::text::is_digit(s[0]));
            crate::text::lemma_trim_noop(s);
            Percent::lemma_spec_from_hundredths(p@);
            Percent::lemma_view_eq(p, Percent::spec_from_hundredths(p@));
        },
    }
}

} // verus!

verus! {

/// A threshold never allows less than the baseline itself.
pub proof fn lemma_allowed_at_least_baseline(t: Threshold, baseline: u64)
    ensures
        threshold_allowed(t, baseline) >= baseline,
{
}

} // verus!
