//! Decimal numbers such as `2.5`, `-0.75` or `+10`, read exactly.
//!
//! A number is an optional sign, integer digits, and an optional `.` followed
//! by fraction digits; at least one digit must be present. Its value scaled by
//! an integer unit and rounded down is computed without floating point.

use vstd::arithmetic::div_mod::*;
use vstd::arithmetic::power::*;
use vstd::prelude::*;

use crate::text::{
    all_digits, char_pred, copy_range, dec, digit_of, digits_val, find_char, find_first, is_digit,
    lemma_dec_roundtrip, lemma_digits_val_prepend, lemma_digits_val_zero, lemma_find_first, push_all,
};

verus! {

/// `10^k`.
pub open spec fn pow10(k: nat) -> int {
    pow(10, k)
}

/// The sign, integer digits and fraction digits of the decimal `s`, or
/// `None` when `s` is not a decimal number.
pub open spec fn decimal_parts(s: Seq<char>) -> Option<(bool, Seq<char>, Seq<char>)> {
    let signed = s.len() > 0 && (s[0] == '+' || s[0] == '-');
    let negative = s.len() > 0 && s[0] == '-';
    let body = if signed {
        s.drop_first()
    } else {
        s
    };
    let p = find_first(body, char_pred('.')) as int;
    let int_digits = body.subrange(0, p);
    let frac_digits = if p < body.len() {
        body.subrange(p + 1, body.len() as int)
    } else {
        Seq::<char>::empty()
    };
    if all_digits(int_digits) && all_digits(frac_digits) && int_digits.len() + frac_digits.len()
        > 0 {
        Some((negative, int_digits, frac_digits))
    } else {
        None
    }
}

/// `floor(frac * m)` where `frac` is the fraction `0.<digits>`.
pub open spec fn frac_floor(frac_digits: Seq<char>, m: nat) -> nat {
    (((digits_val(frac_digits) * m) as int) / pow10(frac_digits.len())) as nat
}

/// `floor(x * m)` where `x` is the non-negative decimal `<int>.<frac>`.
pub open spec fn scaled_floor(int_digits: Seq<char>, frac_digits: Seq<char>, m: nat) -> nat {
    digits_val(int_digits) * m + frac_floor(frac_digits, m)
}

/// `true` when the decimal `<int>.<frac>` is zero.
pub open spec fn parts_zero(int_digits: Seq<char>, frac_digits: Seq<char>) -> bool {
    digits_val(int_digits) == 0 && digits_val(frac_digits) == 0
}

/// A decimal scaled by an integer unit.
pub struct Scaled {
    /// The number was written with a leading `-`.
    pub negative: bool,
    /// The number is zero (whatever its sign).
    pub zero: bool,
    /// `floor(|x| * unit)`, capped at `u64::MAX`.
    pub value: u64,
    /// `floor(|x| * unit)` fits in a `u64`.
    pub fits: bool,
}

/// The meaning of a `Scaled` computed from `s` with unit `m`.
pub open spec fn scaled_matches(s: Seq<char>, m: nat, r: Option<Scaled>) -> bool {
    match decimal_parts(s) {
        None => r is None,
        Some((negative, int_digits, frac_digits)) => {
            let v = scaled_floor(int_digits, frac_digits, m);
            &&& r is Some
            &&& r->0.negative == negative
            &&& r->0.zero == parts_zero(int_digits, frac_digits)
            &&& r->0.fits == (v <= u64::MAX)
            &&& r->0.value == (if v <= u64::MAX {
                v
            } else {
                u64::MAX as nat
            })
        },
    }
}

proof fn lemma_floor_step(a: int, b: int, c: int)
    requires
        a >= 0,
        b >= 0,
        c > 0,
    ensures
        (a + b / c) / 10 == (a * c + b) / (10 * c),
{
    lemma_fundamental_div_mod(b, c);
    let q = b / c;
    let r = b % c;
    assert(a * c + b == (a + q) * c + r) by (nonlinear_arith)
        requires
            b == c * q + r,
    ;
    lemma_mod_pos_bound(b, c);
    lemma_fundamental_div_mod_converse(a * c + b, c, a + q, r);
    lemma_div_denominator(a * c + b, c, 10);
    assert(c * 10 == 10 * c);
}

/// Whether every character of `s` is a decimal digit.
pub fn all_digit_chars(s: &[char]) -> (r: bool)
    ensures
        r == all_digits(s@),
{
    let n = s.len();
    let mut i: usize = 0;
    while i < n
        invariant
            n == s@.len(),
            i <= n,
            forall|j: int| 0 <= j < i ==> is_digit(#[trigger] s@[j]),
        decreases n - i,
    {
        if !('0' <= s[i] && s[i] <= '9') {
            return false;
        }
        i = i + 1;
    }
    true
}

/// Whether some digit of `s` is not `0`.
fn any_nonzero(s: &[char]) -> (r: bool)
    requires
        all_digits(s@),
    ensures
        r == (digits_val(s@) != 0),
{
    proof {
        lemma_digits_val_zero(s@);
    }
    let n = s.len();
    let mut i: usize = 0;
    while i < n
        invariant
            n == s@.len(),
            i <= n,
            all_digits(s@),
            forall|j: int| 0 <= j < i ==> #[trigger] s@[j] == '0',
        decreases n - i,
    {
        if s[i] != '0' {
            proof {
                lemma_digits_val_zero(s@);
                assert(s@[i as int] != '0');
            }
            return true;
        }
        i = i + 1;
    }
    false
}

/// The value of the digits `s`, capped at `cap`.
fn digits_value_capped(s: &[char], cap: u128) -> (v: u128)
    requires
        all_digits(s@),
        cap <= 0x1_0000_0000_0000_0000_0000_0000,
    ensures
        v == (if digits_val(s@) < cap {
            digits_val(s@)
        } else {
            cap as nat
        }),
{
    let n = s.len();
    let mut acc: u128 = 0;
    let mut i: usize = 0;
    assert(s@.take(0) =~= Seq::<char>::empty());
    while i < n
        invariant
            n == s@.len(),
            i <= n,
            all_digits(s@),
            cap <= 0x1_0000_0000_0000_0000_0000_0000,
            acc == (if digits_val(s@.take(i as int)) < cap {
                digits_val(s@.take(i as int))
            } else {
                cap as nat
            }),
        decreases n - i,
    {
        let ghost prev = s@.take(i as int);
        let ghost next = s@.take(i + 1);
        assert(next.drop_last() =~= prev);
        assert(next.last() == s@[i as int]);
        assert(is_digit(s@[i as int]));
        let d = ((s[i] as u32) - 48) as u128;
        assert(digits_val(next) == digits_val(prev) * 10 + digit_of(s@[i as int]));
        if acc < cap {
            let v = acc * 10 + d;
            acc = if v < cap {
                v
            } else {
                cap
            };
        }
        i = i + 1;
    }
    assert(s@.take(n as int) =~= s@);
    acc
}

/// `floor(0.<s> * m)`.
fn frac_value_floor(s: &[char], m: u64) -> (r: u64)
    requires
        all_digits(s@),
        1 <= m <= 0x10_0000,
    ensures
        r == frac_floor(s@, m as nat),
        r <= m,
{
    let k = s.len();
    let mut j: usize = k;
    let mut r: u64 = 0;
    proof {
        lemma_pow0(10);
        assert(s@.subrange(k as int, k as int) =~= Seq::<char>::empty());
        assert(digits_val(Seq::<char>::empty()) == 0);
    }
    while j > 0
        invariant
            k == s@.len(),
            j <= k,
            all_digits(s@),
            1 <= m <= 0x10_0000,
            r <= m,
            r == ((digits_val(s@.subrange(j as int, k as int)) * m) as int) / pow10((k - j) as nat),
        decreases j,
    {
        let ghost tail = s@.subrange(j as int, k as int);
        let ghost c = s@[j - 1];
        assert(is_digit(c));
        let d = ((s[j - 1] as u32) - 48) as u64;
        assert(d == digit_of(c));
        assert(d <= 9);
        assert(m * d <= 9 * 0x10_0000) by (nonlinear_arith)
            requires
                d <= 9,
                m <= 0x10_0000,
        ;
        proof {
            let whole = s@.subrange(j - 1, k as int);
            assert(whole =~= seq![c] + tail);
            lemma_digits_val_prepend(c, tail);
            let p = pow10(tail.len());
            assert(tail.len() == k - j);
            lemma_pow_positive(10, tail.len());
            lemma_pow_adds(10, tail.len(), 1);
            lemma_pow1(10);
            assert(pow10((k - (j - 1)) as nat) == p * 10);
            let v = digits_val(tail) as int;
            lemma_floor_step(m * d, v * m, p);
            assert(digits_val(whole) * m == (d * p + v) * m);
            assert((d * p + v) * m == (m * d) * p + v * m) by (nonlinear_arith);
            assert(10 * p == p * 10);
        }
        let x = m * d + r;
        assert(x <= 10 * m) by (nonlinear_arith)
            requires
                d <= 9,
                r <= m,
                x == m * d + r,
        ;
        r = x / 10;
        j = j - 1;
    }
    assert(s@.subrange(0, k as int) =~= s@);
    r
}

/// The sign, integer digits and fraction digits of the decimal `s`.
fn split_decimal(s: &[char]) -> (r: Option<(bool, Vec<char>, Vec<char>)>)
    ensures
        match decimal_parts(s@) {
            Some((negative, int_digits, frac_digits)) => r matches Some((n, i, f)) && n
                == negative && i@ == int_digits && f@ == frac_digits,
            None => r is None,
        },
{
    let n = s.len();
    let signed = n > 0 && (s[0] == '+' || s[0] == '-');
    let negative = n > 0 && s[0] == '-';
    let start: usize = if signed {
        1
    } else {
        0
    };
    let body = copy_range(s, start, n);
    proof {
        if signed {
            assert(body@ =~= s@.drop_first());
        } else {
            assert(body@ =~= s@);
        }
    }
    let p = find_char(body.as_slice(), '.');
    let int_digits = copy_range(body.as_slice(), 0, p);
    let frac_digits = if p < body.len() {
        copy_range(body.as_slice(), p + 1, body.len())
    } else {
        Vec::new()
    };
    proof {
        if p >= body.len() {
            assert(frac_digits@ =~= Seq::<char>::empty());
        }
    }
    if !all_digit_chars(int_digits.as_slice()) || !all_digit_chars(frac_digits.as_slice()) || (
    int_digits.len() == 0 && frac_digits.len() == 0) {
        return None;
    }
    Some((negative, int_digits, frac_digits))
}

/// The decimal `<int>.<frac>` with sign `negative`, scaled by `m`.
fn scale_parts(negative: bool, int_digits: &[char], frac_digits: &[char], m: u64) -> (r: Scaled)
    requires
        1 <= m <= 0x10_0000,
        all_digits(int_digits@),
        all_digits(frac_digits@),
    ensures
        ({
            let v = scaled_floor(int_digits@, frac_digits@, m as nat);
            &&& r.negative == negative
            &&& r.zero == parts_zero(int_digits@, frac_digits@)
            &&& r.fits == (v <= u64::MAX)
            &&& r.value == (if v <= u64::MAX {
                v
            } else {
                u64::MAX as nat
            })
        }),
{
    let ghost ip = int_digits@;
    let ghost fp = frac_digits@;
    let cap: u128 = 0x1_0000_0000_0000_0000;
    let int_capped = digits_value_capped(int_digits, cap);
    let frac_floor_v = frac_value_floor(frac_digits, m);
    let zero = int_capped == 0 && !any_nonzero(frac_digits);
    assert(int_capped * (m as u128) <= cap * 0x10_0000) by (nonlinear_arith)
        requires
            int_capped <= cap,
            m <= 0x10_0000,
    ;
    let total: u128 = int_capped * (m as u128) + frac_floor_v as u128;
    let fits = total <= u64::MAX as u128;
    let value: u64 = if fits {
        total as u64
    } else {
        u64::MAX
    };
    proof {
        let iv = digits_val(ip);
        let v = scaled_floor(ip, fp, m as nat);
        assert(v == iv * m + frac_floor(fp, m as nat));
        if iv < cap {
            assert(total == v);
        } else {
            assert(int_capped == cap);
            assert(iv * m >= iv) by (nonlinear_arith)
                requires
                    m >= 1,
            ;
            assert(cap * m >= cap) by (nonlinear_arith)
                requires
                    m >= 1,
            ;
            assert(v > u64::MAX);
            assert(!fits);
        }
    }
    Scaled { negative, zero, value, fits }
}

/// Reads the decimal `s` and scales it by `m`, rounding down.
pub fn parse_scaled(s: &[char], m: u64) -> (r: Option<Scaled>)
    requires
        1 <= m <= 0x10_0000,
    ensures
        scaled_matches(s@, m as nat, r),
{
    match split_decimal(s) {
        Some((negative, int_digits, frac_digits)) => Some(
            scale_parts(negative, int_digits.as_slice(), frac_digits.as_slice(), m),
        ),
        None => None,
    }
}

// ---------------------------------------------------------------------------
// Scientific notation
// ---------------------------------------------------------------------------

/// `n` zero digits.
pub open spec fn zeros(n: nat) -> Seq<char> {
    Seq::new(n, |i: int| '0')
}

/// `e` or `E`, which starts an exponent.
pub open spec fn exp_pred() -> spec_fn(char) -> bool {
    |c: char| c == 'e' || c == 'E'
}

/// The exponent written after an `e`: an optional sign and at least one
/// digit.
pub open spec fn exponent_value(t: Seq<char>) -> Option<int> {
    let signed = t.len() > 0 && (t[0] == '+' || t[0] == '-');
    let digits = if signed {
        t.drop_first()
    } else {
        t
    };
    if digits.len() > 0 && all_digits(digits) {
        Some(
            if t[0] == '-' {
                -(digits_val(digits) as int)
            } else {
                digits_val(digits) as int
            },
        )
    } else {
        None
    }
}

/// The integer and fraction digits of `<int>.<frac>` times `10^e`: the same
/// digits with the point moved `e` places to the right, zero-padded.
pub open spec fn shift_point(int_digits: Seq<char>, frac_digits: Seq<char>, e: int) -> (
    Seq<char>,
    Seq<char>,
) {
    let ds = int_digits + frac_digits;
    let p = int_digits.len() + e;
    if p <= 0 {
        (Seq::empty(), zeros((-p) as nat) + ds)
    } else if p >= ds.len() {
        (ds + zeros((p - ds.len()) as nat), Seq::empty())
    } else {
        (ds.take(p), ds.skip(p))
    }
}

/// The sign, integer digits and fraction digits of `s`, a decimal possibly
/// followed by an exponent (`1.5e3`, `25E-1`), as Rust's float syntax
/// writes numbers; `None` when `s` is neither.
pub open spec fn scientific_parts(s: Seq<char>) -> Option<(bool, Seq<char>, Seq<char>)> {
    let k = find_first(s, exp_pred()) as int;
    if k >= s.len() {
        decimal_parts(s)
    } else {
        match (decimal_parts(s.take(k)), exponent_value(s.skip(k + 1))) {
            (Some((negative, i, f)), Some(e)) => {
                let (i2, f2) = shift_point(i, f, e);
                Some((negative, i2, f2))
            },
            _ => None,
        }
    }
}

/// `true` when `sc` is the decimal `<int>.<frac>` with sign `negative`
/// scaled by `m`.
pub open spec fn scaled_is(
    sc: Scaled,
    negative: bool,
    int_digits: Seq<char>,
    frac_digits: Seq<char>,
    m: nat,
) -> bool {
    let v = scaled_floor(int_digits, frac_digits, m);
    &&& sc.negative == negative
    &&& sc.zero == parts_zero(int_digits, frac_digits)
    &&& sc.fits == (v <= u64::MAX)
    &&& sc.value == (if v <= u64::MAX {
        v
    } else {
        u64::MAX as nat
    })
}

/// `true` when no fraction digit past the first `places` is non-zero, so
/// that the number is written exactly with `places` decimal places.
pub open spec fn fits_places(frac_digits: Seq<char>, places: nat) -> bool {
    frac_digits.len() <= places || digits_val(frac_digits.skip(places as int)) == 0
}

/// The meaning of what `parse_scientific` computes from `s`, in decimal or
/// scientific notation, with unit `m`: the scaled value, and whether the
/// number fits `places` decimal places.
pub open spec fn scientific_matches(s: Seq<char>, m: nat, places: nat, r: Option<(Scaled, bool)>) -> bool {
    match scientific_parts(s) {
        None => r is None,
        Some((negative, int_digits, frac_digits)) => r matches Some((sc, exact)) && scaled_is(
            sc,
            negative,
            int_digits,
            frac_digits,
            m,
        ) && exact == fits_places(frac_digits, places),
    }
}

/// Without an `e` or `E`, scientific notation is plain decimal notation.
pub proof fn lemma_no_exponent(s: Seq<char>)
    requires
        forall|i: int| 0 <= i < s.len() ==> #[trigger] s[i] != 'e' && s[i] != 'E',
    ensures
        scientific_parts(s) == decimal_parts(s),
{
    assert forall|j: int| 0 <= j < s.len() implies !exp_pred()(#[trigger] s[j]) by {}
    lemma_find_first(s, exp_pred(), s.len() as int);
}

/// Digits appended to digits multiply the first by a power of ten.
proof fn lemma_digits_val_append(a: Seq<char>, b: Seq<char>)
    ensures
        digits_val(a + b) == digits_val(a) * pow10(b.len()) + digits_val(b),
    decreases b.len(),
{
    if b.len() == 0 {
        assert(a + b =~= a);
        lemma_pow0(10);
    } else {
        lemma_digits_val_append(a, b.drop_last());
        assert((a + b).drop_last() =~= a + b.drop_last());
        assert((a + b).last() == b.last());
        lemma_pow_adds(10, (b.len() - 1) as nat, 1);
        lemma_pow1(10);
        let p = pow10((b.len() - 1) as nat);
        let x = digits_val(a) as int;
        let y = digits_val(b.drop_last()) as int;
        let d = digit_of(b.last()) as int;
        assert((x * p + y) * 10 + d == x * (p * 10) + (y * 10 + d)) by (nonlinear_arith);
    }
}

/// Digits are worth less than the next power of ten.
proof fn lemma_digits_val_bound(s: Seq<char>)
    requires
        all_digits(s),
    ensures
        digits_val(s) < pow10(s.len()),
    decreases s.len(),
{
    if s.len() == 0 {
        lemma_pow0(10);
    } else {
        let t = s.drop_last();
        assert(all_digits(t)) by {
            assert forall|i: int| 0 <= i < t.len() implies is_digit(#[trigger] t[i]) by {
                assert(t[i] == s[i]);
            }
        }
        lemma_digits_val_bound(t);
        assert(is_digit(s.last()));
        lemma_pow_adds(10, t.len(), 1);
        lemma_pow1(10);
        let p = pow10(t.len());
        let x = digits_val(t) as int;
        let d = digit_of(s.last()) as int;
        assert(x * 10 + d < p * 10) by (nonlinear_arith)
            requires
                x < p,
                0 <= d < 10,
        ;
    }
}

/// Zero digits are digits worth nothing.
proof fn lemma_zeros(n: nat)
    ensures
        all_digits(zeros(n)),
        digits_val(zeros(n)) == 0,
        zeros(n).len() == n,
{
    assert forall|i: int| 0 <= i < zeros(n).len() implies is_digit(#[trigger] zeros(n)[i]) by {}
    lemma_digits_val_zero(zeros(n));
}

/// The parts of a moved point are digits, and all zero exactly when the
/// digits moved are.
proof fn lemma_shift_digits(int_digits: Seq<char>, frac_digits: Seq<char>, e: int)
    requires
        all_digits(int_digits),
        all_digits(frac_digits),
    ensures
        all_digits(shift_point(int_digits, frac_digits, e).0),
        all_digits(shift_point(int_digits, frac_digits, e).1),
        parts_zero(shift_point(int_digits, frac_digits, e).0, shift_point(int_digits, frac_digits, e).1)
            == (digits_val(int_digits + frac_digits) == 0),
{
    let ds = int_digits + frac_digits;
    assert(all_digits(ds)) by {
        assert forall|i: int| 0 <= i < ds.len() implies is_digit(#[trigger] ds[i]) by {
            if i < int_digits.len() {
                assert(ds[i] == int_digits[i]);
            } else {
                assert(ds[i] == frac_digits[i - int_digits.len()]);
            }
        }
    }
    let (i2, f2) = shift_point(int_digits, frac_digits, e);
    let p = int_digits.len() + e;
    lemma_digits_val_zero(ds);
    if p <= 0 {
        let z = zeros((-p) as nat);
        lemma_zeros((-p) as nat);
        assert(all_digits(f2)) by {
            assert forall|i: int| 0 <= i < f2.len() implies is_digit(#[trigger] f2[i]) by {
                if i < z.len() {
                    assert(f2[i] == z[i]);
                } else {
                    assert(f2[i] == ds[i - z.len()]);
                }
            }
        }
        assert(i2 =~= Seq::<char>::empty());
        lemma_digits_val_append(z, ds);
    } else if p >= ds.len() {
        let z = zeros((p - ds.len()) as nat);
        lemma_zeros((p - ds.len()) as nat);
        assert(all_digits(i2)) by {
            assert forall|i: int| 0 <= i < i2.len() implies is_digit(#[trigger] i2[i]) by {
                if i < ds.len() {
                    assert(i2[i] == ds[i]);
                } else {
                    assert(i2[i] == z[i - ds.len()]);
                }
            }
        }
        assert(f2 =~= Seq::<char>::empty());
        lemma_digits_val_append(ds, z);
        lemma_pow_positive(10, z.len());
        assert(digits_val(ds) * pow10(z.len()) == 0 <==> digits_val(ds) == 0) by (nonlinear_arith)
            requires
                pow10(z.len()) > 0,
        ;
    } else {
        assert(all_digits(i2)) by {
            assert forall|i: int| 0 <= i < i2.len() implies is_digit(#[trigger] i2[i]) by {
                assert(i2[i] == ds[i]);
            }
        }
        assert(all_digits(f2)) by {
            assert forall|i: int| 0 <= i < f2.len() implies is_digit(#[trigger] f2[i]) by {
                assert(f2[i] == ds[i + p]);
            }
        }
        assert(ds =~= i2 + f2);
        lemma_digits_val_append(i2, f2);
        lemma_pow_positive(10, f2.len());
        assert(digits_val(i2) * pow10(f2.len()) + digits_val(f2) == 0 <==> (digits_val(i2) == 0
            && digits_val(f2) == 0)) by (nonlinear_arith)
            requires
                pow10(f2.len()) > 0,
        ;
    }
}

/// Digits joined are digits, worth nothing exactly when both parts are.
proof fn lemma_concat_digits(a: Seq<char>, b: Seq<char>)
    requires
        all_digits(a),
        all_digits(b),
    ensures
        all_digits(a + b),
        (digits_val(a + b) == 0) == (digits_val(a) == 0 && digits_val(b) == 0),
{
    let ds = a + b;
    assert forall|i: int| 0 <= i < ds.len() implies is_digit(#[trigger] ds[i]) by {
        if i < a.len() {
            assert(ds[i] == a[i]);
        } else {
            assert(ds[i] == b[i - a.len()]);
        }
    }
    lemma_digits_val_append(a, b);
    lemma_pow_positive(10, b.len());
    assert(digits_val(a) * pow10(b.len()) + digits_val(b) == 0 <==> (digits_val(a) == 0
        && digits_val(b) == 0)) by (nonlinear_arith)
        requires
            pow10(b.len()) > 0,
    ;
}

/// Zero digits, wherever the point goes, scale to zero.
proof fn lemma_zero_shift(int_digits: Seq<char>, frac_digits: Seq<char>, e: int, m: nat)
    requires
        all_digits(int_digits),
        all_digits(frac_digits),
        digits_val(int_digits + frac_digits) == 0,
    ensures
        ({
            let (i2, f2) = shift_point(int_digits, frac_digits, e);
            &&& parts_zero(i2, f2)
            &&& scaled_floor(i2, f2, m) == 0
        }),
{
    lemma_shift_digits(int_digits, frac_digits, e);
    let (i2, f2) = shift_point(int_digits, frac_digits, e);
    lemma_pow_positive(10, f2.len());
    lemma_basic_div_specific_divisor(pow10(f2.len()));
    assert(digits_val(f2) * m == 0);
}

/// Nonzero digits whose point lands seven or more places before them scale
/// to zero for a unit of at most `2^20`.
proof fn lemma_tiny_shift(int_digits: Seq<char>, frac_digits: Seq<char>, e: int, m: nat)
    requires
        all_digits(int_digits),
        all_digits(frac_digits),
        int_digits.len() + e <= -7,
        m <= 0x10_0000,
    ensures
        ({
            let (i2, f2) = shift_point(int_digits, frac_digits, e);
            scaled_floor(i2, f2, m) == 0
        }),
{
    lemma_concat_digits(int_digits, frac_digits);
    let ds = int_digits + frac_digits;
    let p = int_digits.len() + e;
    let k = (-p) as nat;
    let z = zeros(k);
    let (i2, f2) = shift_point(int_digits, frac_digits, e);
    assert(i2 =~= Seq::<char>::empty());
    assert(f2 == z + ds);
    lemma_zeros(k);
    lemma_digits_val_append(z, ds);
    assert(digits_val(f2) == digits_val(ds));
    lemma_digits_val_bound(ds);
    lemma_pow_adds(10, k, ds.len());
    assert(f2.len() == k + ds.len());
    lemma_pow_increases(10, 7, k);
    reveal_with_fuel(pow, 8);
    assert(pow10(7) == 10_000_000);
    let a = pow10(k);
    let b = pow10(ds.len());
    let x = digits_val(ds) * m;
    assert(x < a * b) by (nonlinear_arith)
        requires
            x == digits_val(ds) * m,
            digits_val(ds) < b,
            m <= 0x10_0000,
            a >= 10_000_000,
    ;
    lemma_basic_div_specific_divisor(a * b);
    assert(pow10(f2.len()) == a * b);
    assert(digits_val(i2) == 0);
    assert((digits_val(f2) * m) as int == x);
    assert((x as int) / (a * b) == 0);
    assert(frac_floor(f2, m) == 0);
}

/// Nonzero digits whose point lands seven or more places before them do not
/// fit seven or fewer decimal places.
proof fn lemma_tiny_shift_places(int_digits: Seq<char>, frac_digits: Seq<char>, e: int, places: nat)
    requires
        all_digits(int_digits),
        all_digits(frac_digits),
        digits_val(int_digits + frac_digits) != 0,
        int_digits.len() + e <= -7,
        places <= 7,
    ensures
        !fits_places(shift_point(int_digits, frac_digits, e).1, places),
{
    lemma_concat_digits(int_digits, frac_digits);
    let ds = int_digits + frac_digits;
    let p = int_digits.len() + e;
    let k = (-p) as nat;
    let (i2, f2) = shift_point(int_digits, frac_digits, e);
    assert(f2 == zeros(k) + ds);
    let t = f2.skip(places as int);
    let z = zeros((k - places) as nat);
    assert(t =~= z + ds);
    lemma_zeros((k - places) as nat);
    lemma_digits_val_append(z, ds);
    if ds.len() == 0 {
        assert(ds =~= Seq::<char>::empty());
    }
    assert(f2.len() > places);
}

/// Nonzero digits whose point lands twenty or more places after them scale
/// past `u64::MAX` for a unit of at least one.
proof fn lemma_huge_shift(int_digits: Seq<char>, frac_digits: Seq<char>, e: int, m: nat)
    requires
        all_digits(int_digits),
        all_digits(frac_digits),
        digits_val(int_digits + frac_digits) != 0,
        int_digits.len() + e >= int_digits.len() + frac_digits.len() + 20,
        m >= 1,
    ensures
        ({
            let (i2, f2) = shift_point(int_digits, frac_digits, e);
            scaled_floor(i2, f2, m) > u64::MAX
        }),
{
    lemma_concat_digits(int_digits, frac_digits);
    let ds = int_digits + frac_digits;
    let p = int_digits.len() + e;
    let k = (p - ds.len()) as nat;
    let z = zeros(k);
    let (i2, f2) = shift_point(int_digits, frac_digits, e);
    assert(i2 == ds + z);
    assert(f2 =~= Seq::<char>::empty());
    lemma_zeros(k);
    lemma_digits_val_append(ds, z);
    lemma_pow_increases(10, 20, k);
    reveal_with_fuel(pow, 21);
    assert(pow10(20) == 100_000_000_000_000_000_000);
    let a = pow10(k);
    let v = digits_val(ds);
    assert(v * a * m >= 100_000_000_000_000_000_000) by (nonlinear_arith)
        requires
            v >= 1,
            a >= 100_000_000_000_000_000_000,
            m >= 1,
    ;
    lemma_pow0(10);
    assert(digits_val(f2) == 0);
    assert(f2.len() == 0);
    assert(frac_floor(f2, m) == 0);
}

/// Zero digits leave every tail zero.
proof fn lemma_zero_tail(f: Seq<char>, places: nat)
    requires
        all_digits(f),
        digits_val(f) == 0,
    ensures
        fits_places(f, places),
{
    if f.len() > places {
        let t = f.skip(places as int);
        lemma_digits_val_zero(f);
        assert(all_digits(t)) by {
            assert forall|i: int| 0 <= i < t.len() implies is_digit(#[trigger] t[i]) by {
                assert(t[i] == f[i + places]);
            }
        }
        assert forall|i: int| 0 <= i < t.len() implies #[trigger] t[i] == '0' by {
            assert(t[i] == f[i + places]);
        }
        lemma_digits_val_zero(t);
    }
}

/// Whether the digits `f` past the first `places` are all zero.
fn digits_fit(f: &[char], places: usize) -> (r: bool)
    requires
        all_digits(f@),
    ensures
        r == fits_places(f@, places as nat),
{
    if f.len() <= places {
        return true;
    }
    let tail = copy_range(f, places, f.len());
    assert(tail@ =~= f@.skip(places as int));
    assert(all_digits(tail@)) by {
        assert forall|i: int| 0 <= i < tail@.len() implies is_digit(#[trigger] tail@[i]) by {
            assert(tail@[i] == f@[i + places]);
        }
    }
    !any_nonzero(tail.as_slice())
}

/// The index of the first `e` or `E` of `s`, or `s.len()`.
fn find_exponent(s: &[char]) -> (i: usize)
    ensures
        i == find_first(s@, exp_pred()),
        i <= s@.len(),
{
    let n = s.len();
    let mut i: usize = 0;
    while i < n && s[i] != 'e' && s[i] != 'E'
        invariant
            n == s@.len(),
            i <= n,
            forall|j: int| 0 <= j < i ==> !exp_pred()(#[trigger] s@[j]),
        decreases n - i,
    {
        i = i + 1;
    }
    proof {
        lemma_find_first(s@, exp_pred(), i as int);
    }
    i
}

/// An exponent with its magnitude capped at `2^66`, beyond any count of
/// digits.
pub open spec fn capped_exponent(e: int) -> int {
    if e >= 0x4_0000_0000_0000_0000 {
        0x4_0000_0000_0000_0000
    } else if e <= -0x4_0000_0000_0000_0000 {
        -0x4_0000_0000_0000_0000
    } else {
        e
    }
}

/// Reads the exponent `t` written after an `e`, capped.
fn read_exponent(t: &[char]) -> (r: Option<i128>)
    ensures
        match exponent_value(t@) {
            Some(e) => r matches Some(x) && x == capped_exponent(e),
            None => r is None,
        },
{
    let n = t.len();
    let signed = n > 0 && (t[0] == '+' || t[0] == '-');
    let negative = n > 0 && t[0] == '-';
    let start: usize = if signed {
        1
    } else {
        0
    };
    let digits = copy_range(t, start, n);
    proof {
        if signed {
            assert(digits@ =~= t@.drop_first());
        } else {
            assert(digits@ =~= t@);
        }
    }
    if digits.len() == 0 || !all_digit_chars(digits.as_slice()) {
        return None;
    }
    let magnitude = digits_value_capped(digits.as_slice(), 0x4_0000_0000_0000_0000);
    let x: i128 = if negative {
        -(magnitude as i128)
    } else {
        magnitude as i128
    };
    Some(x)
}

/// Appends `n` zero digits to `dst`.
fn push_zeros(dst: &mut Vec<char>, n: usize)
    ensures
        final(dst)@ == old(dst)@ + zeros(n as nat),
{
    let ghost start = dst@;
    let mut i: usize = 0;
    while i < n
        invariant
            i <= n,
            dst@ == start + zeros(i as nat),
        decreases n - i,
    {
        dst.push('0');
        i = i + 1;
        assert(start + zeros(i as nat) =~= (start + zeros((i - 1) as nat)).push('0'));
    }
}

/// The digits of `<int>.<frac>` times `10^e`, for a point that lands fewer
/// than seven places before the digits or twenty places after them.
fn shift_digits(int_digits: &[char], frac_digits: &[char], e: i128) -> (r: (Vec<char>, Vec<char>))
    requires
        -7 < int_digits@.len() + e < int_digits@.len() + frac_digits@.len() + 20,
    ensures
        r.0@ == shift_point(int_digits@, frac_digits@, e as int).0,
        r.1@ == shift_point(int_digits@, frac_digits@, e as int).1,
{
    let ghost ds = int_digits@ + frac_digits@;
    let mut digits: Vec<char> = Vec::new();
    push_all(&mut digits, int_digits);
    push_all(&mut digits, frac_digits);
    assert(digits@ =~= ds);
    let len = digits.len();
    let p: i128 = int_digits.len() as i128 + e;
    if p <= 0 {
        let mut f: Vec<char> = Vec::new();
        push_zeros(&mut f, (0 - p) as usize);
        push_all(&mut f, digits.as_slice());
        assert(f@ =~= zeros((-p) as nat) + ds);
        (Vec::new(), f)
    } else if p >= len as i128 {
        push_zeros(&mut digits, (p - len as i128) as usize);
        (digits, Vec::new())
    } else {
        let at = p as usize;
        let i2 = copy_range(digits.as_slice(), 0, at);
        let f2 = copy_range(digits.as_slice(), at, len);
        assert(i2@ =~= ds.take(p as int));
        assert(f2@ =~= ds.skip(p as int));
        (i2, f2)
    }
}

/// `<int>.<frac>` times `10^exact`, with sign `negative`, scaled by `m`;
/// `e` is `exact` capped.
fn scale_shifted(
    negative: bool,
    int_digits: &[char],
    frac_digits: &[char],
    e: i128,
    Ghost(exact): Ghost<int>,
    m: u64,
    places: usize,
) -> (r: (Scaled, bool))
    requires
        1 <= m <= 0x10_0000,
        places <= 7,
        all_digits(int_digits@),
        all_digits(frac_digits@),
        e == capped_exponent(exact),
    ensures
        ({
            let (i2, f2) = shift_point(int_digits@, frac_digits@, exact);
            &&& scaled_is(r.0, negative, i2, f2, m as nat)
            &&& r.1 == fits_places(f2, places as nat)
        }),
{
    let ghost ip = int_digits@;
    let ghost fp = frac_digits@;
    proof {
        lemma_concat_digits(ip, fp);
        lemma_shift_digits(ip, fp, exact);
    }
    let nonzero = any_nonzero(int_digits) || any_nonzero(frac_digits);
    let il = int_digits.len() as i128;
    let len = il + frac_digits.len() as i128;
    let p = il + e;
    if !nonzero {
        proof {
            lemma_zero_shift(ip, fp, exact, m as nat);
            lemma_zero_tail(shift_point(ip, fp, exact).1, places as nat);
        }
        (Scaled { negative, zero: true, value: 0, fits: true }, true)
    } else if p <= -7 {
        proof {
            lemma_tiny_shift(ip, fp, exact, m as nat);
            lemma_tiny_shift_places(ip, fp, exact, places as nat);
        }
        (Scaled { negative, zero: false, value: 0, fits: true }, false)
    } else if p >= len + 20 {
        proof {
            lemma_huge_shift(ip, fp, exact, m as nat);
        }
        (Scaled { negative, zero: false, value: u64::MAX, fits: false }, true)
    } else {
        assert(e == exact);
        let (i2, f2) = shift_digits(int_digits, frac_digits, e);
        let scaled = scale_parts(negative, i2.as_slice(), f2.as_slice(), m);
        (scaled, digits_fit(f2.as_slice(), places))
    }
}

/// Reads `s`, a decimal possibly followed by an exponent, scales it by `m`,
/// rounding down, and tells whether it fits `places` decimal places.
pub fn parse_scientific(s: &[char], m: u64, places: usize) -> (r: Option<(Scaled, bool)>)
    requires
        1 <= m <= 0x10_0000,
        places <= 7,
    ensures
        scientific_matches(s@, m as nat, places as nat, r),
{
    let k = find_exponent(s);
    if k >= s.len() {
        return match split_decimal(s) {
            Some((negative, int_digits, frac_digits)) => {
                let scaled = scale_parts(negative, int_digits.as_slice(), frac_digits.as_slice(), m);
                Some((scaled, digits_fit(frac_digits.as_slice(), places)))
            },
            None => None,
        };
    }
    let mantissa = copy_range(s, 0, k);
    let exponent = copy_range(s, k + 1, s.len());
    assert(mantissa@ =~= s@.take(k as int));
    assert(exponent@ =~= s@.skip(k + 1));
    let e = match read_exponent(exponent.as_slice()) {
        Some(e) => e,
        None => {
            return None;
        },
    };
    match split_decimal(mantissa.as_slice()) {
        Some((negative, int_digits, frac_digits)) => {
            let ghost exact = exponent_value(s@.skip(k + 1))->0;
            Some(
                scale_shifted(
                    negative,
                    int_digits.as_slice(),
                    frac_digits.as_slice(),
                    e,
                    Ghost(exact),
                    m,
                    places,
                ),
            )
        },
        None => None,
    }
}

} // verus!

verus! {

/// The digits of `n` read as a decimal: no sign, no fraction.
pub proof fn lemma_parts_of_dec(n: nat)
    ensures
        decimal_parts(dec(n)) == Some((false, dec(n), Seq::<char>::empty())),
        forall|m: nat| scaled_floor(dec(n), Seq::<char>::empty(), m) == n * m,
{
    lemma_dec_roundtrip(n);
    let d = dec(n);
    assert(is_digit(d[0]));
    assert forall|j: int| 0 <= j < d.len() implies !char_pred('.')(#[trigger] d[j]) by {
        assert(is_digit(d[j]));
    }
    lemma_find_first(d, char_pred('.'), d.len() as int);
    assert(d.subrange(0, d.len() as int) =~= d);
    lemma_pow0(10);
    assert(digits_val(Seq::<char>::empty()) == 0);
    assert(all_digits(Seq::<char>::empty()));
}

/// The digits of `n`, a `.` and the digits `frac` read as a decimal.
pub proof fn lemma_parts_of_dec_frac(n: nat, frac: Seq<char>)
    requires
        all_digits(frac),
    ensures
        decimal_parts(dec(n) + seq!['.'] + frac) == Some((false, dec(n), frac)),
{
    lemma_dec_roundtrip(n);
    let d = dec(n);
    let s = d + seq!['.'] + frac;
    let l = d.len() as int;
    assert(s[0] == d[0]);
    assert(is_digit(d[0]));
    assert forall|j: int| 0 <= j < l implies !char_pred('.')(#[trigger] s[j]) by {
        assert(s[j] == d[j]);
        assert(is_digit(d[j]));
    }
    assert(s[l] == '.');
    lemma_find_first(s, char_pred('.'), l);
    assert(s.subrange(0, l) =~= d);
    assert(s.subrange(l + 1, s.len() as int) =~= frac);
}

} // verus!
