//! Character-sequence helpers shared by the parsers and formatters.
//!
//! Strings are modelled as `Seq<char>`. The helpers here cover what the
//! size, percentage and path code needs: Unicode whitespace trimming, ASCII
//! case mapping, searching, and decimal rendering of integers.

use vstd::prelude::*;

verus! {

// ---------------------------------------------------------------------------
// Conversions between `&str`, `String` and `Vec<char>`
// ---------------------------------------------------------------------------

/// The characters of `s`, in order.
pub fn chars_of(s: &str) -> (out: Vec<char>)
    ensures
        out@ == s@,
{
    let mut out: Vec<char> = Vec::new();
    for c in it: s.chars()
        invariant
            out@ == it.seq().take(it.index() as int),
            it.seq() == s@,
    {
        out.push(c);
    }
    out
}

/// Builds a `String` holding exactly the characters of `chars`.
#[verifier::external_body]
pub(crate) fn string_from_chars(chars: &[char]) -> (s: String)
    ensures
        s@ == chars@,
{
    chars.iter().collect()
}

/// Appends every character of `src` to `dst`.
pub fn push_all(dst: &mut Vec<char>, src: &[char])
    ensures
        final(dst)@ == old(dst)@ + src@,
{
    let ghost start = dst@;
    let n = src.len();
    let mut i: usize = 0;
    while i < n
        invariant
            n == src@.len(),
            i <= n,
            dst@ == start + src@.take(i as int),
        decreases n - i,
    {
        dst.push(src[i]);
        i = i + 1;
        assert(src@.take(i as int) =~= src@.take((i - 1) as int).push(src@[i - 1]));
    }
    assert(src@.take(n as int) =~= src@);
}

/// Appends every character of `src` to `dst`.
pub fn push_str(dst: &mut Vec<char>, src: &str)
    ensures
        final(dst)@ == old(dst)@ + src@,
{
    let chars = chars_of(src);
    push_all(dst, chars.as_slice());
}

/// The characters `s[lo..hi]`, copied.
pub fn copy_range(s: &[char], lo: usize, hi: usize) -> (out: Vec<char>)
    requires
        lo <= hi <= s@.len(),
    ensures
        out@ == s@.subrange(lo as int, hi as int),
{
    let mut out: Vec<char> = Vec::new();
    let mut i: usize = lo;
    while i < hi
        invariant
            lo <= i <= hi,
            hi <= s@.len(),
            out@ == s@.subrange(lo as int, i as int),
        decreases hi - i,
    {
        out.push(s[i]);
        i = i + 1;
        assert(out@ =~= s@.subrange(lo as int, i as int));
    }
    out
}

/// `true` when the two character slices are equal.
pub fn chars_eq(a: &[char], b: &[char]) -> (r: bool)
    ensures
        r == (a@ == b@),
{
    if a.len() != b.len() {
        return false;
    }
    let n = a.len();
    let mut i: usize = 0;
    while i < n
        invariant
            n == a@.len(),
            n == b@.len(),
            i <= n,
            forall|j: int| 0 <= j < i ==> a@[j] == b@[j],
        decreases n - i,
    {
        if a[i] != b[i] {
            return false;
        }
        i = i + 1;
    }
    assert(a@ =~= b@);
    true
}

/// `true` when `a` and the string `b` hold the same characters.
pub fn chars_eq_str(a: &[char], b: &str) -> (r: bool)
    ensures
        r == (a@ == b@),
{
    let bc = chars_of(b);
    chars_eq(a, bc.as_slice())
}

// ---------------------------------------------------------------------------
// Unicode whitespace and trimming
// ---------------------------------------------------------------------------

/// The Unicode `White_Space` property, which `char::is_whitespace` and
/// `str::trim` use.
pub open spec fn is_ws(c: char) -> bool {
    let u = c as u32;
    ||| 0x09 <= u <= 0x0D
    ||| u == 0x20
    ||| u == 0x85
    ||| u == 0xA0
    ||| u == 0x1680
    ||| 0x2000 <= u <= 0x200A
    ||| u == 0x2028
    ||| u == 0x2029
    ||| u == 0x202F
    ||| u == 0x205F
    ||| u == 0x3000
}

/// Whether `c` is Unicode whitespace.
pub fn is_whitespace(c: char) -> (r: bool)
    ensures
        r == is_ws(c),
{
    let u = c as u32;
    (0x09 <= u && u <= 0x0D) || u == 0x20 || u == 0x85 || u == 0xA0 || u == 0x1680 || (0x2000 <= u
        && u <= 0x200A) || u == 0x2028 || u == 0x2029 || u == 0x202F || u == 0x205F || u == 0x3000
}

/// `s` without its leading whitespace.
pub open spec fn trim_start(s: Seq<char>) -> Seq<char>
    decreases s.len(),
{
    if s.len() > 0 && is_ws(s[0]) {
        trim_start(s.drop_first())
    } else {
        s
    }
}

/// `s` without its trailing whitespace.
pub open spec fn trim_end(s: Seq<char>) -> Seq<char>
    decreases s.len(),
{
    if s.len() > 0 && is_ws(s.last()) {
        trim_end(s.drop_last())
    } else {
        s
    }
}

/// `s` without leading and trailing whitespace, as `str::trim` does.
pub open spec fn trim(s: Seq<char>) -> Seq<char> {
    trim_end(trim_start(s))
}

/// Trimming keeps a sequence that neither starts nor ends with whitespace.
pub proof fn lemma_trim_noop(s: Seq<char>)
    requires
        s.len() > 0 ==> !is_ws(s[0]) && !is_ws(s.last()),
    ensures
        trim(s) == s,
{
}

/// Trimming drops a single trailing whitespace character after a sequence
/// that neither starts nor ends with whitespace.
pub proof fn lemma_trim_trailing_ws(s: Seq<char>, c: char)
    requires
        s.len() > 0,
        !is_ws(s[0]),
        !is_ws(s.last()),
        is_ws(c),
    ensures
        trim(s.push(c)) == s,
{
    let t = s.push(c);
    assert(t[0] == s[0]);
    assert(trim_start(t) == t);
    assert(t.last() == c);
    assert(t.drop_last() =~= s);
    assert(trim_end(s) == s);
    assert(trim_end(t) == trim_end(s));
}

/// `s` without leading and trailing whitespace.
pub fn trim_chars(s: &[char]) -> (out: Vec<char>)
    ensures
        out@ == trim(s@),
{
    let n = s.len();
    let mut lo: usize = 0;
    assert(s@.subrange(0, n as int) =~= s@);
    while lo < n && is_whitespace(s[lo])
        invariant
            n == s@.len(),
            lo <= n,
            trim_start(s@) == trim_start(s@.subrange(lo as int, n as int)),
        decreases n - lo,
    {
        let ghost sub = s@.subrange(lo as int, n as int);
        assert(sub.drop_first() =~= s@.subrange(lo + 1, n as int));
        lo = lo + 1;
    }
    assert(trim_start(s@) == s@.subrange(lo as int, n as int));
    let ghost ts = s@.subrange(lo as int, n as int);
    let mut hi: usize = n;
    while hi > lo && is_whitespace(s[hi - 1])
        invariant
            n == s@.len(),
            lo <= hi <= n,
            ts == s@.subrange(lo as int, n as int),
            trim_end(ts) == trim_end(s@.subrange(lo as int, hi as int)),
        decreases hi - lo,
    {
        let ghost sub = s@.subrange(lo as int, hi as int);
        assert(sub.drop_last() =~= s@.subrange(lo as int, hi - 1));
        hi = hi - 1;
    }
    copy_range(s, lo, hi)
}

// ---------------------------------------------------------------------------
// ASCII classes and case mapping
// ---------------------------------------------------------------------------

pub open spec fn is_ascii_lower(c: char) -> bool {
    'a' <= c && c <= 'z'
}

pub open spec fn is_ascii_upper(c: char) -> bool {
    'A' <= c && c <= 'Z'
}

/// The ASCII letters, as `char::is_ascii_alphabetic` defines them.
pub open spec fn is_ascii_alpha(c: char) -> bool {
    is_ascii_lower(c) || is_ascii_upper(c)
}

/// `char::to_ascii_uppercase`.
pub open spec fn upper_ascii(c: char) -> char {
    if is_ascii_lower(c) {
        ((c as u32) - 32) as char
    } else {
        c
    }
}

/// `char::to_ascii_lowercase`.
pub open spec fn lower_ascii(c: char) -> char {
    if is_ascii_upper(c) {
        ((c as u32) + 32) as char
    } else {
        c
    }
}

/// `str::to_ascii_uppercase`, character by character.
pub open spec fn upper_seq(s: Seq<char>) -> Seq<char> {
    Seq::new(s.len(), |i: int| upper_ascii(s[i]))
}

/// `str::to_ascii_lowercase`, character by character.
pub open spec fn lower_seq(s: Seq<char>) -> Seq<char> {
    Seq::new(s.len(), |i: int| lower_ascii(s[i]))
}

pub fn is_ascii_alphabetic(c: char) -> (r: bool)
    ensures
        r == is_ascii_alpha(c),
{
    ('a' <= c && c <= 'z') || ('A' <= c && c <= 'Z')
}

pub fn to_ascii_upper(c: char) -> (r: char)
    ensures
        r == upper_ascii(c),
{
    if 'a' <= c && c <= 'z' {
        ((c as u8) - 32) as char
    } else {
        c
    }
}

pub fn to_ascii_lower(c: char) -> (r: char)
    ensures
        r == lower_ascii(c),
{
    if 'A' <= c && c <= 'Z' {
        ((c as u8) + 32) as char
    } else {
        c
    }
}

pub fn upper_chars(s: &[char]) -> (out: Vec<char>)
    ensures
        out@ == upper_seq(s@),
{
    let mut out: Vec<char> = Vec::new();
    let n = s.len();
    let mut i: usize = 0;
    while i < n
        invariant
            n == s@.len(),
            i <= n,
            out@ =~= upper_seq(s@).take(i as int),
        decreases n - i,
    {
        out.push(to_ascii_upper(s[i]));
        i = i + 1;
    }
    out
}

pub fn lower_chars(s: &[char]) -> (out: Vec<char>)
    ensures
        out@ == lower_seq(s@),
{
    let mut out: Vec<char> = Vec::new();
    let n = s.len();
    let mut i: usize = 0;
    while i < n
        invariant
            n == s@.len(),
            i <= n,
            out@ =~= lower_seq(s@).take(i as int),
        decreases n - i,
    {
        out.push(to_ascii_lower(s[i]));
        i = i + 1;
    }
    out
}

// ---------------------------------------------------------------------------
// Searching
// ---------------------------------------------------------------------------

/// The index of the first character of `s` satisfying `p`, or `s.len()`.
pub open spec fn find_first(s: Seq<char>, p: spec_fn(char) -> bool) -> nat
    decreases s.len(),
{
    if s.len() == 0 {
        0
    } else if p(s[0]) {
        0
    } else {
        1 + find_first(s.drop_first(), p)
    }
}

/// `find_first` is the first index where `p` holds.
pub proof fn lemma_find_first(s: Seq<char>, p: spec_fn(char) -> bool, i: int)
    requires
        0 <= i <= s.len(),
        forall|j: int| 0 <= j < i ==> !p(#[trigger] s[j]),
        i == s.len() || p(s[i]),
    ensures
        find_first(s, p) == i,
    decreases i,
{
    if i > 0 {
        let t = s.drop_first();
        assert forall|j: int| 0 <= j < i - 1 implies !p(#[trigger] t[j]) by {
            assert(t[j] == s[j + 1]);
        }
        if i < s.len() {
            assert(t[i - 1] == s[i]);
        }
        lemma_find_first(t, p, i - 1);
    }
}

/// The predicate "is an ASCII letter", for `find_first`.
pub open spec fn ascii_alpha_pred() -> spec_fn(char) -> bool {
    |c: char| is_ascii_alpha(c)
}

/// The predicate "is `x`", for `find_first`.
pub open spec fn char_pred(x: char) -> spec_fn(char) -> bool {
    |c: char| c == x
}

/// The index of the first ASCII letter of `s`, or `s.len()`.
pub fn find_ascii_alpha(s: &[char]) -> (i: usize)
    ensures
        i == find_first(s@, ascii_alpha_pred()),
        i <= s@.len(),
{
    let n = s.len();
    let mut i: usize = 0;
    while i < n && !is_ascii_alphabetic(s[i])
        invariant
            n == s@.len(),
            i <= n,
            forall|j: int| 0 <= j < i ==> !is_ascii_alpha(#[trigger] s@[j]),
        decreases n - i,
    {
        i = i + 1;
    }
    proof {
        lemma_find_first(s@, ascii_alpha_pred(), i as int);
    }
    i
}

/// The index of the first `x` in `s`, or `s.len()`.
pub fn find_char(s: &[char], x: char) -> (i: usize)
    ensures
        i == find_first(s@, char_pred(x)),
        i <= s@.len(),
        forall|j: int| 0 <= j < i ==> s@[j] != x,
        i < s@.len() ==> s@[i as int] == x,
{
    let n = s.len();
    let mut i: usize = 0;
    while i < n && s[i] != x
        invariant
            n == s@.len(),
            i <= n,
            forall|j: int| 0 <= j < i ==> #[trigger] s@[j] != x,
        decreases n - i,
    {
        i = i + 1;
    }
    proof {
        lemma_find_first(s@, char_pred(x), i as int);
    }
    i
}

/// Whether `x` occurs in `s`.
pub fn contains_char(s: &[char], x: char) -> (r: bool)
    ensures
        r == s@.contains(x),
{
    let i = find_char(s, x);
    if i < s.len() {
        true
    } else {
        assert(!s@.contains(x));
        false
    }
}

// ---------------------------------------------------------------------------
// Decimal digits
// ---------------------------------------------------------------------------

pub open spec fn is_digit(c: char) -> bool {
    '0' <= c && c <= '9'
}

pub open spec fn all_digits(s: Seq<char>) -> bool {
    forall|i: int| 0 <= i < s.len() ==> is_digit(#[trigger] s[i])
}

/// The value of the digit character `c`.
pub open spec fn digit_of(c: char) -> nat {
    ((c as u32) - 48) as nat
}

/// The character of the digit `d` (`d < 10`).
pub open spec fn digit_char(d: nat) -> char {
    (48 + d) as char
}

/// The value of the decimal digits `s`, most significant first.
pub open spec fn digits_val(s: Seq<char>) -> nat
    decreases s.len(),
{
    if s.len() == 0 {
        0
    } else {
        digits_val(s.drop_last()) * 10 + digit_of(s.last())
    }
}

/// The decimal rendering of `n`, without leading zeros.
pub open spec fn dec(n: nat) -> Seq<char>
    decreases n,
{
    if n < 10 {
        seq![digit_char(n)]
    } else {
        dec(n / 10).push(digit_char(n % 10))
    }
}

pub proof fn lemma_digit_roundtrip(d: nat)
    requires
        d < 10,
    ensures
        digit_of(digit_char(d)) == d,
        is_digit(digit_char(d)),
        !is_ws(digit_char(d)),
        !is_ascii_alpha(digit_char(d)),
        digit_char(d) != '.',
        digit_char(d) != '%',
{
}

/// Rendering an integer in decimal and reading it back gives the integer.
pub proof fn lemma_dec_roundtrip(n: nat)
    ensures
        all_digits(dec(n)),
        digits_val(dec(n)) == n,
        dec(n).len() >= 1,
        dec(n).len() <= 1 || dec(n)[0] != '0',
        n >= 10 ==> dec(n).len() >= 2,
    decreases n,
{
    if n < 10 {
        lemma_digit_roundtrip(n);
        let s = dec(n);
        assert(s.drop_last() =~= Seq::<char>::empty());
        assert(s.last() == digit_char(n));
        assert(digits_val(s) == digits_val(s.drop_last()) * 10 + digit_of(s.last()));
        assert(digits_val(Seq::<char>::empty()) == 0);
    } else {
        lemma_dec_roundtrip(n / 10);
        lemma_digit_roundtrip(n % 10);
        let s = dec(n);
        assert(s == dec(n / 10).push(digit_char(n % 10)));
        assert(s.drop_last() =~= dec(n / 10));
        assert(s.last() == digit_char(n % 10));
        assert(digits_val(s) == digits_val(dec(n / 10)) * 10 + digit_of(digit_char(n % 10)));
        assert(n == (n / 10) * 10 + n % 10);
        assert(s[0] == dec(n / 10)[0]);
        if n / 10 < 10 {
            assert(dec(n / 10) == seq![digit_char(n / 10)]);
            assert(dec(n / 10)[0] == digit_char(n / 10));
        }
    }
}

/// Digits read back ignore a prepended digit scaled by the position.
pub proof fn lemma_digits_val_prepend(c: char, t: Seq<char>)
    ensures
        digits_val(seq![c] + t) == digit_of(c) * vstd::arithmetic::power::pow(10, t.len())
            + digits_val(t),
    decreases t.len(),
{
    let s = seq![c] + t;
    if t.len() == 0 {
        assert(s.drop_last() =~= Seq::<char>::empty());
        assert(s.last() == c);
        assert(digits_val(s) == digits_val(s.drop_last()) * 10 + digit_of(c));
        assert(digits_val(Seq::<char>::empty()) == 0);
        assert(t =~= Seq::<char>::empty());
        vstd::arithmetic::power::lemma_pow0(10);
    } else {
        assert(s.drop_last() =~= seq![c] + t.drop_last());
        assert(s.last() == t.last());
        lemma_digits_val_prepend(c, t.drop_last());
        vstd::arithmetic::power::lemma_pow_adds(10, (t.len() - 1) as nat, 1);
        vstd::arithmetic::power::lemma_pow1(10);
        let p = vstd::arithmetic::power::pow(10, (t.len() - 1) as nat);
        assert(vstd::arithmetic::power::pow(10, t.len()) == p * 10);
        let a = digit_of(c) as int;
        let b = digits_val(t.drop_last()) as int;
        let e = digit_of(t.last()) as int;
        assert(digits_val(s) == digits_val(s.drop_last()) * 10 + e);
        assert(digits_val(s.drop_last()) == a * p + b);
        assert(digits_val(t) == b * 10 + e);
        assert((a * p + b) * 10 + e == a * (p * 10) + (b * 10 + e)) by (nonlinear_arith);
    }
}

/// The value of digits is zero exactly when every digit is `0`.
pub proof fn lemma_digits_val_zero(s: Seq<char>)
    requires
        all_digits(s),
    ensures
        (digits_val(s) == 0) <==> (forall|i: int| 0 <= i < s.len() ==> #[trigger] s[i] == '0'),
    decreases s.len(),
{
    if s.len() > 0 {
        let t = s.drop_last();
        assert(all_digits(t)) by {
            assert forall|i: int| 0 <= i < t.len() implies is_digit(#[trigger] t[i]) by {
                assert(t[i] == s[i]);
            }
        }
        lemma_digits_val_zero(t);
        if digits_val(s) == 0 {
            assert forall|i: int| 0 <= i < s.len() implies #[trigger] s[i] == '0' by {
                if i < s.len() - 1 {
                    assert(t[i] == s[i]);
                }
            }
        }
        if forall|i: int| 0 <= i < s.len() ==> #[trigger] s[i] == '0' {
            assert forall|i: int| 0 <= i < t.len() implies #[trigger] t[i] == '0' by {
                assert(t[i] == s[i]);
            }
            assert(s[s.len() - 1] == '0');
        }
    }
}

/// Appends the decimal rendering of `n`.
pub fn push_decimal(out: &mut Vec<char>, n: u64)
    ensures
        final(out)@ == old(out)@ + dec(n as nat),
    decreases n,
{
    if n >= 10 {
        push_decimal(out, n / 10);
    }
    let d = (n % 10) as u8;
    let c = (48u8 + d) as char;
    let ghost before = old(out)@;
    out.push(c);
    proof {
        if n >= 10 {
            assert(dec(n as nat) == dec((n / 10) as nat).push(digit_char((n % 10) as nat)));
        }
        assert(final(out)@ =~= before + dec(n as nat));
    }
}

/// The decimal rendering of `n`.
pub fn decimal(n: u64) -> (out: Vec<char>)
    ensures
        out@ == dec(n as nat),
{
    let mut out: Vec<char> = Vec::new();
    push_decimal(&mut out, n);
    assert(out@ =~= dec(n as nat));
    out
}

} // verus!

verus! {

/// Whether two strings hold the same characters.
pub fn str_eq(a: &str, b: &str) -> (r: bool)
    ensures
        r == (a@ == b@),
{
    let ac = chars_of(a);
    chars_eq_str(ac.as_slice(), b)
}

} // verus!
