//! Byte sizes: the validated [`Size`] used for budgets, and [`SizeReport`], the
//! raw/gzip/brotli measurements of a single file.

use vstd::prelude::*;

use crate::compression::Compression;
use crate::decimal::{decimal_parts, parse_scaled, parts_zero, scaled_floor};
use crate::error::WasmCheckError;
use crate::metric::Metric;
use crate::text::{
    ascii_alpha_pred, chars_eq_str, chars_of, copy_range, dec, digit_char, find_ascii_alpha,
    find_first, push_decimal, push_str, string_from_chars, trim, trim_chars, upper_chars,
    upper_seq,
};

verus! {

/// One kibibyte.
pub const KIB: u64 = 1024;

/// One mebibyte.
pub const MIB: u64 = 1048576;

// ---------------------------------------------------------------------------
// Size
// ---------------------------------------------------------------------------

/// A non-negative byte count, parsed from and rendered to human strings such
/// as `"280 KB"`.
#[derive(Debug, Clone, Copy, Default, PartialEq, Eq, Structural, PartialOrd, Ord, Hash)]
pub struct Size(u64);

impl View for Size {
    type V = u64;

    closed spec fn view(&self) -> u64 {
        self.0
    }
}

/// The smallest multiple of 1024 that is at least `bytes`.
pub open spec fn kib_ceil(bytes: u64) -> nat {
    if bytes % 1024 == 0 {
        bytes as nat
    } else {
        (bytes - bytes % 1024 + 1024) as nat
    }
}

/// The multiplier of a size unit, already uppercased: `""`/`B`, `KB`/`KIB`,
/// `MB`/`MIB`.
pub open spec fn size_unit(unit: Seq<char>) -> Option<nat> {
    if unit.len() == 0 || unit == "B"@ {
        Some(1)
    } else if unit == "KB"@ || unit == "KIB"@ {
        Some(1024)
    } else if unit == "MB"@ || unit == "MIB"@ {
        Some(1048576)
    } else {
        None
    }
}

/// The number part and unit part of a size string: after trimming and ASCII
/// uppercasing, the text before and from the first ASCII letter, each trimmed.
pub open spec fn size_number(s: Seq<char>) -> Seq<char> {
    let u = upper_seq(trim(s));
    trim(u.subrange(0, find_first(u, ascii_alpha_pred()) as int))
}

pub open spec fn size_unit_text(s: Seq<char>) -> Seq<char> {
    let u = upper_seq(trim(s));
    trim(u.subrange(find_first(u, ascii_alpha_pred()) as int, u.len() as int))
}

/// The byte count a size string denotes: the decimal number times the unit,
/// rounded down. `None` when the number is malformed or negative, the unit is
/// unknown, or the count does not fit in a `u64`.
pub open spec fn size_from_text(s: Seq<char>) -> Option<u64> {
    match (decimal_parts(size_number(s)), size_unit(size_unit_text(s))) {
        (Some((negative, int_digits, frac_digits)), Some(m)) => {
            let v = scaled_floor(int_digits, frac_digits, m);
            if negative && !parts_zero(int_digits, frac_digits) {
                None
            } else if v <= u64::MAX {
                Some(v as u64)
            } else {
                None
            }
        },
        _ => None,
    }
}

/// The lossless rendering of a size: `"11 KB"`, `"2 MB"` or `"10700 B"`.
pub open spec fn size_text(bytes: u64) -> Seq<char> {
    if bytes != 0 && bytes % 1048576 == 0 {
        dec((bytes / 1048576) as nat) + " MB"@
    } else if bytes != 0 && bytes % 1024 == 0 {
        dec((bytes / 1024) as nat) + " KB"@
    } else {
        dec(bytes as nat) + " B"@
    }
}

/// Multiplier for a trimmed, uppercased unit.
fn unit_multiplier(unit: &[char]) -> (r: Option<u64>)
    ensures
        r matches Some(m) ==> size_unit(unit@) == Some(m as nat),
        r is None ==> size_unit(unit@) is None,
{
    if unit.len() == 0 || chars_eq_str(unit, "B") {
        Some(1)
    } else if chars_eq_str(unit, "KB") || chars_eq_str(unit, "KIB") {
        Some(1024)
    } else if chars_eq_str(unit, "MB") || chars_eq_str(unit, "MIB") {
        Some(1048576)
    } else {
        None
    }
}

impl Size {
    /// Wraps a raw byte count.
    pub fn from_bytes(bytes: u64) -> (r: Self)
        ensures
            r@ == bytes,
    {
        Size(bytes)
    }

    /// The size in bytes.
    pub fn bytes(self) -> (r: u64)
        ensures
            r == self@,
    {
        self.0
    }

    /// The size holding `bytes`, for specifications.
    pub closed spec fn spec_from_bytes(bytes: u64) -> Size {
        Size(bytes)
    }

    pub proof fn lemma_spec_from_bytes(bytes: u64)
        ensures
            Size::spec_from_bytes(bytes)@ == bytes,
    {
    }

    /// Two sizes with the same byte count are the same size.
    pub proof fn lemma_view_eq(a: Size, b: Size)
        requires
            a@ == b@,
        ensures
            a == b,
    {
    }

    /// The smallest whole-KiB size that is greater than or equal to `bytes`.
    ///
    /// This is how `init` derives a starting budget: rounding up guarantees
    /// the freshly written config does not fail its own first check.
    pub fn from_kib_ceil(bytes: u64) -> (r: Self)
        requires
            bytes % 1024 == 0 || bytes - bytes % 1024 + 1024 <= u64::MAX,
        ensures
            r@ == kib_ceil(bytes),
            r@ >= bytes,
            r@ % 1024 == 0,
            r@ < bytes + 1024,
    {
        let rem = bytes % 1024;
        if rem == 0 {
            Size(bytes)
        } else {
            Size(bytes - rem + 1024)
        }
    }

    /// Parses a size such as `"280 KB"`, `"2.5 MB"`, `"512"` or `"10700 B"`.
    ///
    /// Units are case-insensitive; `B`, `KB`/`KiB` and `MB`/`MiB` are
    /// understood. Negative and out-of-range values are rejected with
    /// [`WasmCheckError::InvalidSize`], which carries the trimmed input.
    pub fn parse(s: &str) -> (r: Result<Self, WasmCheckError>)
        ensures
            size_from_text(s@) matches Some(b) ==> (r matches Ok(size) && size@ == b),
            size_from_text(s@) is None ==> (r matches Err(WasmCheckError::InvalidSize(t)) && t@
                == trim(s@)),
    {
        let chars = chars_of(s);
        let trimmed = trim_chars(chars.as_slice());
        let upper = upper_chars(trimmed.as_slice());
        let pos = find_ascii_alpha(upper.as_slice());
        let number_raw = copy_range(upper.as_slice(), 0, pos);
        let number = trim_chars(number_raw.as_slice());
        let unit_raw = copy_range(upper.as_slice(), pos, upper.len());
        let unit = trim_chars(unit_raw.as_slice());
        let m = match unit_multiplier(unit.as_slice()) {
            Some(m) => m,
            None => {
                return Err(WasmCheckError::InvalidSize(string_from_chars(trimmed.as_slice())));
            },
        };
        match parse_scaled(number.as_slice(), m) {
            Some(scaled) => {
                if (scaled.negative && !scaled.zero) || !scaled.fits {
                    Err(WasmCheckError::InvalidSize(string_from_chars(trimmed.as_slice())))
                } else {
                    Ok(Size(scaled.value))
                }
            },
            None => Err(WasmCheckError::InvalidSize(string_from_chars(trimmed.as_slice()))),
        }
    }

    /// Formats the size losslessly: `"11 KB"`, `"2 MB"` or `"10700 B"`.
    pub fn to_text(&self) -> (r: String)
        ensures
            r@ == size_text(self@),
    {
        let bytes = self.0;
        let mut out: Vec<char> = Vec::new();
        if bytes != 0 && bytes % MIB == 0 {
            push_decimal(&mut out, bytes / MIB);
            push_str(&mut out, " MB");
        } else if bytes != 0 && bytes % KIB == 0 {
            push_decimal(&mut out, bytes / KIB);
            push_str(&mut out, " KB");
        } else {
            push_decimal(&mut out, bytes);
            push_str(&mut out, " B");
        }
        string_from_chars(out.as_slice())
    }
}

impl std::str::FromStr for Size {
    type Err = WasmCheckError;

    fn from_str(s: &str) -> (r: Result<Self, Self::Err>)
        ensures
            size_from_text(s@) matches Some(b) ==> (r matches Ok(size) && size@ == b),
            size_from_text(s@) is None ==> (r matches Err(WasmCheckError::InvalidSize(t)) && t@
                == trim(s@)),
    {
        Size::parse(s)
    }
}

// ---------------------------------------------------------------------------
// Human formatting
// ---------------------------------------------------------------------------

/// `x / d` rounded to the nearest integer, ties to even.
pub open spec fn round_half_even(x: nat, d: nat) -> nat {
    let q = x / d;
    let r = x % d;
    if 2 * r > d {
        q + 1
    } else if 2 * r < d {
        q
    } else if q % 2 == 1 {
        q + 1
    } else {
        q
    }
}

/// `num / d` with exactly two decimals, rounded half to even: `"675.21"`.
pub open spec fn fixed2(num: nat, d: nat) -> Seq<char> {
    let h = round_half_even(num * 100, d);
    dec(h / 100) + seq!['.', digit_char((h % 100) / 10), digit_char(h % 10)]
}

/// The human rendering of a byte count: `"675.21 KB"`, `"1.50 MB"`,
/// `"500 B"`.
pub open spec fn human_size(bytes: u64) -> Seq<char> {
    if bytes >= 1048576 {
        fixed2(bytes as nat, 1048576) + " MB"@
    } else if bytes >= 1024 {
        fixed2(bytes as nat, 1024) + " KB"@
    } else {
        dec(bytes as nat) + " B"@
    }
}

/// Appends `num / d` with two decimals.
fn push_fixed2(out: &mut Vec<char>, num: u64, d: u64)
    requires
        d == 1024 || d == 1048576,
    ensures
        final(out)@ == old(out)@ + fixed2(num as nat, d as nat),
{
    let x: u128 = (num as u128) * 100;
    let q = x / (d as u128);
    let r = x % (d as u128);
    let h: u128 = if 2 * r > d as u128 {
        q + 1
    } else if 2 * r < d as u128 {
        q
    } else if q % 2 == 1 {
        q + 1
    } else {
        q
    };
    assert(h == round_half_even(num as nat * 100, d as nat));
    assert(q <= x / 1024) by {
        vstd::arithmetic::div_mod::lemma_div_is_ordered_by_denominator(x as int, 1024, d as int);
    }
    let whole = h / 100;
    assert(whole <= u64::MAX);
    let frac = h % 100;
    push_decimal(out, whole as u64);
    out.push('.');
    out.push((48u8 + (frac / 10) as u8) as char);
    out.push((48u8 + (frac % 10) as u8) as char);
    proof {
        assert(h % 10 == frac % 10) by {
            vstd::arithmetic::div_mod::lemma_mod_mod(h as int, 10, 10);
        }
    }
    assert(final(out)@ =~= old(out)@ + fixed2(num as nat, d as nat));
}

/// Formats a byte count for humans: `"675.21 KB"`, `"1.50 MB"`, `"500 B"`.
///
/// This is a rounded presentation format, not meant to be parsed back.
pub fn format_size(bytes: u64) -> (r: String)
    ensures
        r@ == human_size(bytes),
{
    let mut out: Vec<char> = Vec::new();
    if bytes >= MIB {
        push_fixed2(&mut out, bytes, MIB);
        push_str(&mut out, " MB");
    } else if bytes >= KIB {
        push_fixed2(&mut out, bytes, KIB);
        push_str(&mut out, " KB");
    } else {
        push_decimal(&mut out, bytes);
        push_str(&mut out, " B");
    }
    string_from_chars(out.as_slice())
}

/// The signed human difference between a value and its baseline.
pub open spec fn delta_text(value: u64, baseline: u64) -> Seq<char> {
    if value > baseline {
        "+"@ + human_size((value - baseline) as u64)
    } else if value < baseline {
        "-"@ + human_size((baseline - value) as u64)
    } else {
        "±0 B"@
    }
}

/// Formats the difference between a measured value and its baseline, e.g.
/// `"+5.64 KB"` or `"±0 B"`.
pub fn delta_str(value: u64, baseline: u64) -> (r: String)
    ensures
        r@ == delta_text(value, baseline),
{
    let mut out: Vec<char> = Vec::new();
    if value > baseline {
        push_str(&mut out, "+");
        let body = format_size(value - baseline);
        push_str(&mut out, body.as_str());
    } else if value < baseline {
        push_str(&mut out, "-");
        let body = format_size(baseline - value);
        push_str(&mut out, body.as_str());
    } else {
        push_str(&mut out, "±0 B");
    }
    string_from_chars(out.as_slice())
}

// ---------------------------------------------------------------------------
// Measurements
// ---------------------------------------------------------------------------

/// The raw, gzip and brotli size of one bundle, in bytes.
#[derive(Debug, PartialEq, Eq)]
pub struct SizeReport {
    /// The path this report was measured from.
    pub file: String,
    /// The uncompressed size.
    pub raw: u64,
    /// The gzip-compressed size.
    pub gzip: u64,
    /// The brotli-compressed size.
    pub brotli: u64,
}

impl Clone for SizeReport {
    fn clone(&self) -> (r: Self)
        ensures
            r == *self,
    {
        SizeReport { file: self.file.clone(), raw: self.raw, gzip: self.gzip, brotli: self.brotli }
    }
}

/// The value of `metric` in `report`.
pub open spec fn report_value(report: SizeReport, metric: Metric) -> u64 {
    match metric {
        Metric::Raw => report.raw,
        Metric::Gzip => report.gzip,
        Metric::Brotli => report.brotli,
    }
}

/// A `u64` reinterpreted as an `i64`, as `as i64` does.
pub open spec fn as_i64(x: u64) -> int {
    if x <= i64::MAX {
        x as int
    } else {
        x - 0x1_0000_0000_0000_0000
    }
}

/// The signed difference of two `u64` values as `a as i64 - b as i64`
/// computes it.
pub open spec fn signed_diff(a: u64, b: u64) -> int {
    as_i64(a) - as_i64(b)
}

/// `true` when `a as i64 - b as i64` does not overflow.
pub open spec fn diff_fits(a: u64, b: u64) -> bool {
    i64::MIN <= signed_diff(a, b) <= i64::MAX
}

fn cast_i64(x: u64) -> (r: i64)
    ensures
        r == as_i64(x),
{
    if x <= i64::MAX as u64 {
        x as i64
    } else {
        let y = x - 0x8000_0000_0000_0000;
        let r = (y as i64) - 0x7fff_ffff_ffff_ffff - 1;
        r
    }
}

/// The signed difference between a measurement and its baseline, in bytes.
#[derive(Debug, Clone, Copy, PartialEq, Eq, Structural)]
pub struct SizeDelta {
    /// Raw growth.
    pub raw: i64,
    /// Gzip growth.
    pub gzip: i64,
    /// Brotli growth.
    pub brotli: i64,
}

/// The difference recorded for `metric`.
pub open spec fn delta_value(delta: SizeDelta, metric: Metric) -> i64 {
    match metric {
        Metric::Raw => delta.raw,
        Metric::Gzip => delta.gzip,
        Metric::Brotli => delta.brotli,
    }
}

impl SizeDelta {
    /// The difference for `metric`, in bytes.
    pub fn get(&self, metric: Metric) -> (r: i64)
        ensures
            r == delta_value(*self, metric),
    {
        match metric {
            Metric::Raw => self.raw,
            Metric::Gzip => self.gzip,
            Metric::Brotli => self.brotli,
        }
    }
}

/// What flate2's gzip encoder gives for `data` at `level`: the finished
/// stream, or `None` when encoding fails.
pub uninterp spec fn gzip_result(data: Seq<u8>, level: u32) -> Option<Seq<u8>>;

/// What the brotli encoder gives for `data` at `quality`: its output, or
/// `None` when encoding fails.
pub uninterp spec fn brotli_result(data: Seq<u8>, quality: i32) -> Option<Seq<u8>>;

/// Compresses `data` with `flate2::write::GzEncoder` at `level` and returns
/// the finished stream. The contract claims that the outcome, success with
/// its stream or failure, is a function of the data and the level alone.
#[verifier::external_body]
fn gzip_compress(data: &[u8], level: u32) -> (r: Result<Vec<u8>, std::io::Error>)
    requires
        level <= 9,
    ensures
        match r {
            Ok(out) => gzip_result(data@, level) == Some(out@),
            Err(_) => gzip_result(data@, level) is None,
        },
{
    let mut encoder = flate2::write::GzEncoder::new(Vec::new(), flate2::Compression::new(level));
    std::io::Write::write_all(&mut encoder, data)?;
    encoder.finish()
}

/// Compresses `data` with `brotli::BrotliCompress` at `quality`, every other
/// encoder parameter at its default, and returns the output. The contract
/// claims that the outcome, success with its output or failure, is a function
/// of the data and the quality alone.
#[verifier::external_body]
fn brotli_compress(data: &[u8], quality: i32) -> (r: Result<Vec<u8>, std::io::Error>)
    requires
        0 <= quality <= 11,
    ensures
        match r {
            Ok(out) => brotli_result(data@, quality) == Some(out@),
            Err(_) => brotli_result(data@, quality) is None,
        },
{
    let params = brotli::enc::BrotliEncoderParams { quality, ..Default::default() };
    let mut output = Vec::new();
    let mut input = data;
    brotli::BrotliCompress(&mut input, &mut output, &params)?;
    Ok(output)
}

/// The outcome of measuring `data`, the contents of `file`, at gzip level
/// `level` and brotli quality `quality`: a report of the raw length and both
/// compressed lengths when both encoders succeed, an I/O error otherwise.
pub open spec fn measured(
    file: Seq<char>,
    data: Seq<u8>,
    level: u32,
    quality: i32,
    r: Result<SizeReport, WasmCheckError>,
) -> bool {
    match (gzip_result(data, level), brotli_result(data, quality)) {
        (Some(g), Some(b)) => r matches Ok(rep) && rep.file@ == file && rep.raw == data.len()
            && rep.gzip == g.len() && rep.brotli == b.len(),
        _ => r matches Err(WasmCheckError::Io(_)),
    }
}

/// `r` is the gzip size of `data` at `level`: the stream's length when the
/// encoder succeeds, an I/O error otherwise.
pub open spec fn gzip_size_is(data: Seq<u8>, level: u32, r: Result<u64, WasmCheckError>) -> bool {
    match gzip_result(data, level) {
        Some(out) => r matches Ok(n) && n == out.len(),
        None => r matches Err(WasmCheckError::Io(_)),
    }
}

/// `r` is the brotli size of `data` at `quality`: the output's length when
/// the encoder succeeds, an I/O error otherwise.
pub open spec fn brotli_size_is(data: Seq<u8>, quality: i32, r: Result<u64, WasmCheckError>) -> bool {
    match brotli_result(data, quality) {
        Some(out) => r matches Ok(n) && n == out.len(),
        None => r matches Err(WasmCheckError::Io(_)),
    }
}

/// Measuring at any setting agrees with compressing at that setting's own
/// levels: it succeeds exactly when gzip at the gzip level and brotli at the
/// brotli quality both succeed, and then reports the raw length of the data
/// and exactly those two compressed sizes. `r` is what `measure_with` gives
/// at gzip level `level` and brotli quality `quality`, and `g` and `b` what
/// `compress_gzip` and `compress_brotli` give at the same levels.
pub proof fn law_measure_uses_the_setting(
    file: Seq<char>,
    data: Seq<u8>,
    level: u32,
    quality: i32,
    r: Result<SizeReport, WasmCheckError>,
    g: Result<u64, WasmCheckError>,
    b: Result<u64, WasmCheckError>,
)
    requires
        measured(file, data, level, quality, r),
        gzip_size_is(data, level, g),
        brotli_size_is(data, quality, b),
    ensures
        r is Ok <==> (g is Ok && b is Ok),
        r matches Ok(rep) ==> (g == Ok::<u64, WasmCheckError>(rep.gzip) && b == Ok::<
            u64,
            WasmCheckError,
        >(rep.brotli) && rep.raw == data.len() && rep.file@ == file),
{
}

/// Two measurements of the same data agree on the raw size whatever their
/// settings.
pub proof fn law_raw_size_ignores_the_setting(
    file: Seq<char>,
    data: Seq<u8>,
    l1: u32,
    q1: i32,
    l2: u32,
    q2: i32,
    r1: Result<SizeReport, WasmCheckError>,
    r2: Result<SizeReport, WasmCheckError>,
)
    requires
        measured(file, data, l1, q1, r1),
        measured(file, data, l2, q2, r2),
    ensures
        r1 matches Ok(a) ==> a.raw == data.len(),
        r1 matches Ok(a) ==> (r2 matches Ok(c) ==> a.raw == c.raw),
{
}

/// The gzip size of `data` at `level`.
pub fn compress_gzip(data: &[u8], level: u32) -> (r: Result<u64, WasmCheckError>)
    requires
        level <= 9,
    ensures
        gzip_size_is(data@, level, r),
{
    match gzip_compress(data, level) {
        Ok(out) => Ok(out.len() as u64),
        Err(e) => Err(WasmCheckError::Io(e)),
    }
}

/// The brotli size of `data` at `quality`.
pub fn compress_brotli(data: &[u8], quality: i32) -> (r: Result<u64, WasmCheckError>)
    requires
        0 <= quality <= 11,
    ensures
        brotli_size_is(data@, quality, r),
{
    match brotli_compress(data, quality) {
        Ok(out) => Ok(out.len() as u64),
        Err(e) => Err(WasmCheckError::Io(e)),
    }
}

impl SizeReport {
    /// Builds a report from already-known sizes.
    pub fn new(file: &str, raw: u64, gzip: u64, brotli: u64) -> (r: Self)
        ensures
            r.file@ == file@,
            r.raw == raw,
            r.gzip == gzip,
            r.brotli == brotli,
    {
        SizeReport { file: file.to_owned(), raw, gzip, brotli }
    }

    /// Measures the raw, gzip and brotli sizes of `data`, the contents of
    /// `file`, with the default (CDN) compression setting.
    pub fn measure(file: &str, data: &[u8]) -> (r: Result<Self, WasmCheckError>)
        ensures
            measured(file@, data@, 6, 5, r),
    {
        let compression = Compression::cdn();
        Self::measure_with(file, data, compression)
    }

    /// Measures the raw, gzip and brotli sizes of `data`, the contents of
    /// `file`, with the given compression setting.
    ///
    /// The raw size is the length of `data` whatever the setting; gzip and
    /// brotli are the lengths of the compressed streams. A compression
    /// failure is returned as [`WasmCheckError::Io`].
    pub fn measure_with(file: &str, data: &[u8], compression: Compression) -> (r: Result<
        Self,
        WasmCheckError,
    >)
        ensures
            measured(file@, data@, compression@.0, compression@.1, r),
    {
        let level = compression.gzip_level();
        let quality = compression.brotli_quality();
        let gzip = match compress_gzip(data, level) {
            Ok(n) => n,
            Err(e) => {
                return Err(e);
            },
        };
        let brotli = match compress_brotli(data, quality) {
            Ok(n) => n,
            Err(e) => {
                return Err(e);
            },
        };
        Ok(SizeReport::new(file, data.len() as u64, gzip, brotli))
    }

    /// The path this report was measured from.
    pub fn file(&self) -> (r: &str)
        ensures
            r@ == self.file@,
    {
        self.file.as_str()
    }

    /// The uncompressed size in bytes.
    pub fn raw(&self) -> (r: u64)
        ensures
            r == self.raw,
    {
        self.raw
    }

    /// The gzip-compressed size in bytes.
    pub fn gzip(&self) -> (r: u64)
        ensures
            r == self.gzip,
    {
        self.gzip
    }

    /// The brotli-compressed size in bytes.
    pub fn brotli(&self) -> (r: u64)
        ensures
            r == self.brotli,
    {
        self.brotli
    }

    /// The value of `metric` for this report.
    pub fn value(&self, metric: Metric) -> (r: u64)
        ensures
            r == report_value(*self, metric),
    {
        metric.value(self)
    }

    /// The signed difference between this report and `baseline`, per metric,
    /// computed as `value as i64 - baseline as i64`.
    pub fn delta(&self, baseline: &Self) -> (r: SizeDelta)
        requires
            diff_fits(self.raw, baseline.raw),
            diff_fits(self.gzip, baseline.gzip),
            diff_fits(self.brotli, baseline.brotli),
        ensures
            forall|m: Metric|
                delta_value(r, m) == signed_diff(report_value(*self, m), report_value(*baseline, m)),
    {
        let r = SizeDelta {
            raw: cast_i64(self.raw) - cast_i64(baseline.raw),
            gzip: cast_i64(self.gzip) - cast_i64(baseline.gzip),
            brotli: cast_i64(self.brotli) - cast_i64(baseline.brotli),
        };
        assert forall|m: Metric|
            delta_value(r, m) == signed_diff(report_value(*self, m), report_value(*baseline, m)) by {
            match m {
                Metric::Raw => {},
                Metric::Gzip => {},
                Metric::Brotli => {},
            }
        }
        r
    }
}

} // verus!

verus! {

/// `dec(n)` followed by a space and an uppercase unit reads back as `n`
/// times the unit.
proof fn lemma_size_text_reads_back(n: nat, letters: Seq<char>, m: nat)
    requires
        letters.len() >= 1,
        forall|i: int| 0 <= i < letters.len() ==> crate::text::is_ascii_upper(#[trigger] letters[i]),
        size_unit(letters) == Some(m),
        n * m <= u64::MAX,
    ensures
        size_from_text(dec(n) + seq![' '] + letters) == Some((n * m) as u64),
{
    let d = dec(n);
    let t = d + seq![' '] + letters;
    let l = d.len() as int;
    crate::text::lemma_dec_roundtrip(n);
    crate::decimal::lemma_parts_of_dec(n);
    assert(crate::text::is_digit(d[0]));
    assert(crate::text::is_digit(d[l - 1]));
    assert(t[0] == d[0]);
    assert(t.last() == letters.last());
    assert(crate::text::is_ascii_upper(letters[letters.len() - 1]));
    crate::text::lemma_trim_noop(t);
    assert forall|i: int| 0 <= i < t.len() implies crate::text::upper_ascii(#[trigger] t[i])
        == t[i] by {
        if i < l {
            assert(t[i] == d[i]);
            assert(crate::text::is_digit(d[i]));
        } else if i == l {
        } else {
            assert(t[i] == letters[i - l - 1]);
        }
    }
    assert(upper_seq(trim(t)) =~= t);
    assert forall|j: int| 0 <= j < l + 1 implies !ascii_alpha_pred()(#[trigger] t[j]) by {
        if j < l {
            assert(t[j] == d[j]);
            assert(crate::text::is_digit(d[j]));
        }
    }
    assert(t[l + 1] == letters[0]);
    crate::text::lemma_find_first(t, ascii_alpha_pred(), l + 1);
    assert(t.subrange(0, l + 1) =~= d.push(' '));
    crate::text::lemma_trim_trailing_ws(d, ' ');
    assert(t.subrange(l + 1, t.len() as int) =~= letters);
    crate::text::lemma_trim_noop(letters);
    assert(size_number(t) == d);
    assert(size_unit_text(t) == letters);
    assert(scaled_floor(d, Seq::<char>::empty(), m) == n * m);
}

/// A size renders to text that parses back to the same size, so a config
/// survives a load/save round trip.
pub proof fn law_size_text_roundtrip(bytes: u64)
    ensures
        size_from_text(size_text(bytes)) == Some(bytes),
{
    reveal_strlit(" MB");
    reveal_strlit(" KB");
    reveal_strlit(" B");
    reveal_strlit("B");
    reveal_strlit("KB");
    reveal_strlit("KIB");
    reveal_strlit("MB");
    reveal_strlit("MIB");
    if bytes != 0 && bytes % 1048576 == 0 {
        let n = (bytes / 1048576) as nat;
        assert(" MB"@ =~= seq![' '] + "MB"@);
        assert("MB"@[0] != "KB"@[0]);
        assert("MB"@ != "KB"@);
        assert(size_unit("MB"@) == Some(1048576nat));
        lemma_size_text_reads_back(n, "MB"@, 1048576);
        assert(dec(n) + " MB"@ =~= dec(n) + seq![' '] + "MB"@);
    } else if bytes != 0 && bytes % 1024 == 0 {
        let n = (bytes / 1024) as nat;
        assert(" KB"@ =~= seq![' '] + "KB"@);
        assert(size_unit("KB"@) == Some(1024nat));
        lemma_size_text_reads_back(n, "KB"@, 1024);
        assert(dec(n) + " KB"@ =~= dec(n) + seq![' '] + "KB"@);
    } else {
        let n = bytes as nat;
        assert(" B"@ =~= seq![' '] + "B"@);
        assert(size_unit("B"@) == Some(1nat));
        lemma_size_text_reads_back(n, "B"@, 1);
        assert(dec(n) + " B"@ =~= dec(n) + seq![' '] + "B"@);
    }
}

} // verus!

verus! {

// ---------------------------------------------------------------------------
// The permissive `parse_size`
// ---------------------------------------------------------------------------

/// What `str::to_uppercase` returns for `s` (full Unicode case mapping).
pub uninterp spec fn unicode_upper(s: Seq<char>) -> Seq<char>;

/// What `char::is_alphabetic` returns for `c` (the Unicode `Alphabetic`
/// property).
pub uninterp spec fn unicode_alphabetic(c: char) -> bool;

/// Calls `str::to_uppercase`. The contract only names the result.
#[verifier::external_body]
fn str_to_uppercase(s: &str) -> (r: String)
    ensures
        r@ == unicode_upper(s@),
{
    s.to_uppercase()
}

/// Calls `char::is_alphabetic`. The contract only names the result.
#[verifier::external_body]
fn char_is_alphabetic(c: char) -> (r: bool)
    ensures
        r == unicode_alphabetic(c),
{
    c.is_alphabetic()
}

/// The predicate "is alphabetic in Unicode", for `find_first`.
pub open spec fn unicode_alpha_pred() -> spec_fn(char) -> bool {
    |c: char| unicode_alphabetic(c)
}

/// The uppercased, trimmed input of `parse_size`.
pub open spec fn loose_upper(s: Seq<char>) -> Seq<char> {
    unicode_upper(trim(s))
}

/// The number part `parse_size` reads: the text before the first alphabetic
/// character, trimmed.
pub open spec fn loose_number(s: Seq<char>) -> Seq<char> {
    let u = loose_upper(s);
    trim(u.subrange(0, find_first(u, unicode_alpha_pred()) as int))
}

/// The unit part `parse_size` reads: the text from the first alphabetic
/// character, trimmed.
pub open spec fn loose_unit(s: Seq<char>) -> Seq<char> {
    let u = loose_upper(s);
    trim(u.subrange(find_first(u, unicode_alpha_pred()) as int, u.len() as int))
}

/// The outcome of `parse_size` for a number part and a unit part: the number
/// times the unit rounded down (capped at `u64::MAX`, and `0` for a negative
/// number), or an error message.
pub open spec fn loose_size(number: Seq<char>, unit: Seq<char>) -> Result<u64, Seq<char>> {
    match decimal_parts(number) {
        None => Err("invalid number: `"@ + number + "`"@),
        Some((negative, int_digits, frac_digits)) => {
            let m: Option<nat> = if unit.len() == 0 || unit == "B"@ {
                Some(1)
            } else if unit == "KB"@ {
                Some(1024)
            } else if unit == "MB"@ {
                Some(1048576)
            } else {
                None
            };
            match m {
                None => Err("unknown unit: `"@ + unit + "` (use B, KB, MB)"@),
                Some(m) => {
                    let v = scaled_floor(int_digits, frac_digits, m);
                    Ok(
                        if negative {
                            0u64
                        } else if v <= u64::MAX {
                            v as u64
                        } else {
                            u64::MAX
                        },
                    )
                },
            }
        },
    }
}

/// `true` when `r` is the outcome `spec` describes.
pub open spec fn loose_matches(r: Result<u64, String>, spec: Result<u64, Seq<char>>) -> bool {
    match spec {
        Ok(v) => r == Ok::<u64, String>(v),
        Err(msg) => r matches Err(e) && e@ == msg,
    }
}

/// Reads an uppercased number part and unit part the way `parse_size` does.
///
/// The units are `B` (or none), `KB` and `MB`; the number is a decimal, and a
/// negative number gives `0`.
pub fn parse_size_parts(number: &str, unit: &str) -> (r: Result<u64, String>)
    ensures
        loose_matches(r, loose_size(number@, unit@)),
{
    let number_chars = chars_of(number);
    let unit_chars = chars_of(unit);
    match parse_scaled(number_chars.as_slice(), 1) {
        None => {
            let mut msg: Vec<char> = Vec::new();
            push_str(&mut msg, "invalid number: `");
            push_str(&mut msg, number);
            push_str(&mut msg, "`");
            Err(string_from_chars(msg.as_slice()))
        },
        Some(_) => {
            let m: u64 = if unit_chars.len() == 0 || chars_eq_str(unit_chars.as_slice(), "B") {
                1
            } else if chars_eq_str(unit_chars.as_slice(), "KB") {
                1024
            } else if chars_eq_str(unit_chars.as_slice(), "MB") {
                1048576
            } else {
                let mut msg: Vec<char> = Vec::new();
                push_str(&mut msg, "unknown unit: `");
                push_str(&mut msg, unit);
                push_str(&mut msg, "` (use B, KB, MB)");
                return Err(string_from_chars(msg.as_slice()));
            };
            match parse_scaled(number_chars.as_slice(), m) {
                Some(scaled) => {
                    if scaled.negative {
                        Ok(0)
                    } else {
                        Ok(scaled.value)
                    }
                },
                None => Ok(0),
            }
        },
    }
}

/// Parses a size such as `"500B"`, `"1.5KB"` or `"2.5 MB"` into bytes.
///
/// The input is trimmed and uppercased; the number is the text before the
/// first alphabetic character and the unit the rest. A negative number gives
/// `0` and an oversized one `u64::MAX`. A malformed number gives
/// ``"invalid number: `N`"`` and any unit other than `B`, `KB` or `MB`
/// ``"unknown unit: `U` (use B, KB, MB)"``.
pub fn parse_size(s: &str) -> (r: Result<u64, String>)
    ensures
        loose_matches(r, loose_size(loose_number(s@), loose_unit(s@))),
{
    let chars = chars_of(s);
    let trimmed = trim_chars(chars.as_slice());
    let trimmed_str = string_from_chars(trimmed.as_slice());
    let upper_string = str_to_uppercase(trimmed_str.as_str());
    let upper = chars_of(upper_string.as_str());
    let n = upper.len();
    let mut pos: usize = 0;
    while pos < n && !char_is_alphabetic(upper[pos])
        invariant
            n == upper@.len(),
            pos <= n,
            forall|j: int| 0 <= j < pos ==> !unicode_alphabetic(#[trigger] upper@[j]),
        decreases n - pos,
    {
        pos = pos + 1;
    }
    proof {
        crate::text::lemma_find_first(upper@, unicode_alpha_pred(), pos as int);
    }
    let number_raw = copy_range(upper.as_slice(), 0, pos);
    let number = trim_chars(number_raw.as_slice());
    let unit_raw = copy_range(upper.as_slice(), pos, n);
    let unit = trim_chars(unit_raw.as_slice());
    let number_str = string_from_chars(number.as_slice());
    let unit_str = string_from_chars(unit.as_slice());
    parse_size_parts(number_str.as_str(), unit_str.as_str())
}

} // verus!
