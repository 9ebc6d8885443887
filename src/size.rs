//! Parsing of human-written byte sizes such as `100MB`, `1.5GiB` or `500K`.
use vstd::prelude::*;
use vstd::string::StrSliceExecFns;

verus! {

/// Why a size string was rejected.
#[derive(Debug, Clone, Copy, PartialEq, Eq, Structural)]
pub enum SizeError {
    /// The string holds no letter, so it has no unit.
    InvalidFormat,
    /// The part before the unit is not a decimal number.
    InvalidNumber,
    /// The unit is none of `B`, `K`, `KB`, `KiB`, ... `T`, `TB`, `TiB`.
    UnknownSuffix,
}

/// Unicode white space, the characters that trimming removes.
pub open spec fn is_space(c: char) -> bool {
    ('\u{9}' <= c && c <= '\u{d}') || c == ' ' || c == '\u{85}' || c == '\u{a0}'
        || c == '\u{1680}' || ('\u{2000}' <= c && c <= '\u{200a}') || c == '\u{2028}'
        || c == '\u{2029}' || c == '\u{202f}' || c == '\u{205f}' || c == '\u{3000}'
}

pub open spec fn trim_start(s: Seq<char>) -> Seq<char>
    decreases s.len(),
{
    if s.len() > 0 && is_space(s[0]) {
        trim_start(s.drop_first())
    } else {
        s
    }
}

pub open spec fn trim_end(s: Seq<char>) -> Seq<char>
    decreases s.len(),
{
    if s.len() > 0 && is_space(s.last()) {
        trim_end(s.drop_last())
    } else {
        s
    }
}

/// `s` without leading and trailing white space.
pub open spec fn trimmed(s: Seq<char>) -> Seq<char> {
    trim_end(trim_start(s))
}

pub open spec fn is_alpha(c: char) -> bool {
    ('a' <= c && c <= 'z') || ('A' <= c && c <= 'Z')
}

pub open spec fn is_digit(c: char) -> bool {
    '0' <= c && c <= '9'
}

pub open spec fn digit_of(c: char) -> nat {
    (c as nat - '0' as nat) as nat
}

/// Index of the first ASCII letter of `s` at or after `i`.
pub open spec fn alpha_from(s: Seq<char>, i: int) -> Option<int>
    decreases s.len() - i,
{
    if i < 0 || i >= s.len() {
        None
    } else if is_alpha(s[i]) {
        Some(i)
    } else {
        alpha_from(s, i + 1)
    }
}

/// Index of the first `.` of `s` at or after `i`, or the length of `s`.
pub open spec fn dot_from(s: Seq<char>, i: int) -> int
    decreases s.len() - i,
{
    if i < 0 || i >= s.len() {
        s.len() as int
    } else if s[i] == '.' {
        i
    } else {
        dot_from(s, i + 1)
    }
}

pub open spec fn all_digits(s: Seq<char>) -> bool {
    forall|i: int| 0 <= i < s.len() ==> is_digit(#[trigger] s[i])
}

/// Number of sign characters at the start of a number.
pub open spec fn sign_len(num: Seq<char>) -> int {
    if num.len() > 0 && (num[0] == '+' || num[0] == '-') {
        1
    } else {
        0
    }
}

pub open spec fn is_negative(num: Seq<char>) -> bool {
    num.len() > 0 && num[0] == '-'
}

pub open spec fn unsigned_part(num: Seq<char>) -> Seq<char> {
    num.subrange(sign_len(num), num.len() as int)
}

/// The digits before the decimal point.
pub open spec fn int_digits(num: Seq<char>) -> Seq<char> {
    let b = unsigned_part(num);
    b.subrange(0, dot_from(b, 0))
}

/// The characters after the decimal point (empty when there is none).
pub open spec fn frac_digits(num: Seq<char>) -> Seq<char> {
    let b = unsigned_part(num);
    let p = dot_from(b, 0);
    if p < b.len() {
        b.subrange(p + 1, b.len() as int)
    } else {
        Seq::empty()
    }
}

/// A decimal number: an optional sign, digits, and at most one decimal point,
/// with at least one digit on either side of the point.
pub open spec fn is_decimal(num: Seq<char>) -> bool {
    all_digits(int_digits(num)) && all_digits(frac_digits(num)) && int_digits(num).len()
        + frac_digits(num).len() > 0
}

/// The value of a string of decimal digits.
pub open spec fn digits_value(ds: Seq<char>) -> nat
    decreases ds.len(),
{
    if ds.len() == 0 {
        0
    } else {
        digits_value(ds.drop_last()) * 10 + digit_of(ds.last())
    }
}

pub open spec fn pow10(n: nat) -> nat
    decreases n,
{
    if n == 0 {
        1
    } else {
        10 * pow10((n - 1) as nat)
    }
}

/// `floor(0.ds * m)` computed digit by digit from the last one.
spec fn frac_scaled(ds: Seq<char>, m: nat) -> nat
    decreases ds.len(),
{
    if ds.len() == 0 {
        0
    } else {
        (digit_of(ds[0]) * m + frac_scaled(ds.drop_first(), m)) / 10
    }
}

proof fn lemma_pow10_pos(n: nat)
    ensures
        pow10(n) > 0,
    decreases n,
{
    if n > 0 {
        lemma_pow10_pos((n - 1) as nat);
    }
}

proof fn lemma_digits_front(ds: Seq<char>)
    requires
        ds.len() > 0,
    ensures
        digits_value(ds) == digit_of(ds[0]) * pow10((ds.len() - 1) as nat) + digits_value(
            ds.drop_first(),
        ),
    decreases ds.len(),
{
    if ds.len() == 1 {
        assert(ds.drop_first().len() == 0);
        assert(ds.drop_last().len() == 0);
        assert(pow10(0) == 1);
        assert(digits_value(ds.drop_last()) == 0);
        assert(digits_value(ds.drop_first()) == 0);
        assert(ds.last() == ds[0]);
        assert(digits_value(ds) == digit_of(ds[0]));
        assert(digit_of(ds[0]) * pow10(0) == digit_of(ds[0]));
    } else {
        let dl = ds.drop_last();
        lemma_digits_front(dl);
        assert(ds.drop_first().drop_last() =~= dl.drop_first());
        assert(ds.drop_first().last() == ds.last());
        assert(dl[0] == ds[0]);
        let d0 = digit_of(ds[0]);
        let p = pow10((dl.len() - 1) as nat);
        let x = digits_value(dl.drop_first());
        let l = digit_of(ds.last());
        assert((d0 * p + x) * 10 + l == d0 * (10 * p) + (x * 10 + l)) by (nonlinear_arith);
        assert(digits_value(ds) == digits_value(dl) * 10 + l);
        assert(digits_value(ds.drop_first()) == x * 10 + l);
        assert(pow10((ds.len() - 1) as nat) == 10 * p);
    }
}

proof fn lemma_frac_scaled_floor(ds: Seq<char>, m: nat)
    ensures
        frac_scaled(ds, m) == (digits_value(ds) * m) / pow10(ds.len()),
    decreases ds.len(),
{
    if ds.len() > 0 {
        let r = ds.drop_first();
        lemma_frac_scaled_floor(r, m);
        lemma_digits_front(ds);
        let p = pow10(r.len());
        lemma_pow10_pos(r.len());
        let d0 = digit_of(ds[0]);
        let x = digits_value(r) * m;
        assert(digits_value(ds) * m == x + (d0 * m) * p) by (nonlinear_arith)
            requires
                digits_value(ds) == d0 * p + digits_value(r),
                x == digits_value(r) * m,
        ;
        vstd::arithmetic::div_mod::lemma_hoist_over_denominator(x as int, (d0 * m) as int, p);
        vstd::arithmetic::div_mod::lemma_div_denominator((digits_value(ds) * m) as int, p as int, 10);
        assert(pow10(ds.len()) == p * 10);
        assert(frac_scaled(ds, m) == (d0 * m + frac_scaled(r, m)) / 10);
        assert(((x + (d0 * m) * p) as int) / (p as int) == (x as int) / (p as int) + d0 * m);
    } else {
        assert(digits_value(ds) == 0);
        assert(pow10(0) == 1);
    }
}

/// The upper-case form of a character where it is an ASCII letter.
pub open spec fn upper(c: char) -> char {
    if 'a' <= c && c <= 'z' {
        ((c as u8) - 32) as char
    } else if c == '\u{131}' {
        'I'
    } else {
        c
    }
}

/// Power of 1024 that a unit letter stands for.
pub open spec fn unit_power(c: char) -> Option<nat> {
    if c == 'B' {
        Some(0)
    } else if c == 'K' {
        Some(1)
    } else if c == 'M' {
        Some(2)
    } else if c == 'G' {
        Some(3)
    } else if c == 'T' {
        Some(4)
    } else {
        None
    }
}

pub open spec fn pow1024(p: nat) -> nat
    decreases p,
{
    if p == 0 {
        1
    } else {
        1024 * pow1024((p - 1) as nat)
    }
}

/// The multiplier of a unit, case-insensitive: `B`, or a letter of
/// `K M G T` alone, followed by `B`, or followed by `iB`.
pub open spec fn suffix_multiplier(suf: Seq<char>) -> Option<nat> {
    if suf.len() == 0 || unit_power(upper(suf[0])) is None {
        None
    } else {
        let p = unit_power(upper(suf[0]))->0;
        if suf.len() == 1 {
            Some(pow1024(p))
        } else if p != 0 && suf.len() == 2 && upper(suf[1]) == 'B' {
            Some(pow1024(p))
        } else if p != 0 && suf.len() == 3 && upper(suf[1]) == 'I' && upper(suf[2]) == 'B' {
            Some(pow1024(p))
        } else {
            None
        }
    }
}

/// The whole part of a valid decimal number times a multiplier: negative
/// numbers give 0, values past `u64::MAX` give `u64::MAX`.
pub open spec fn scaled_value(num: Seq<char>, m: nat) -> u64 {
    if is_negative(num) {
        0
    } else {
        let v = digits_value(int_digits(num)) * m + (digits_value(frac_digits(num)) * m) / pow10(
            frac_digits(num).len(),
        );
        if v > u64::MAX {
            u64::MAX
        } else {
            v as u64
        }
    }
}

/// What a size string means: the trimmed string is split at its first ASCII
/// letter into a number and a unit.
pub open spec fn size_of_text(s: Seq<char>) -> Result<u64, SizeError> {
    let t = trimmed(s);
    match alpha_from(t, 0) {
        None => Err(SizeError::InvalidFormat),
        Some(i) => {
            let num = t.subrange(0, i);
            let suf = t.subrange(i, t.len() as int);
            if !is_decimal(num) {
                Err(SizeError::InvalidNumber)
            } else {
                match suffix_multiplier(suf) {
                    None => Err(SizeError::UnknownSuffix),
                    Some(m) => Ok(scaled_value(num, m)),
                }
            }
        },
    }
}

pub(crate) fn chars_of(s: &str) -> (r: Vec<char>)
    ensures
        r@ == s@,
{
    let n = s.unicode_len();
    let mut r: Vec<char> = Vec::new();
    let mut i: usize = 0;
    while i < n
        invariant
            n == s@.len(),
            i <= n,
            r@ == s@.subrange(0, i as int),
        decreases n - i,
    {
        r.push(s.get_char(i));
        i = i + 1;
        assert(r@ =~= s@.subrange(0, i as int));
    }
    assert(r@ =~= s@);
    r
}

fn char_is_space(c: char) -> (r: bool)
    ensures
        r == is_space(c),
{
    ('\u{9}' <= c && c <= '\u{d}') || c == ' ' || c == '\u{85}' || c == '\u{a0}'
        || c == '\u{1680}' || ('\u{2000}' <= c && c <= '\u{200a}') || c == '\u{2028}'
        || c == '\u{2029}' || c == '\u{202f}' || c == '\u{205f}' || c == '\u{3000}'
}

/// Bounds `[a, b)` of the trimmed part of `v`.
fn trim_bounds(v: &Vec<char>) -> (r: (usize, usize))
    ensures
        r.0 <= r.1 <= v@.len(),
        v@.subrange(r.0 as int, r.1 as int) == trimmed(v@),
{
    let n = v.len();
    let mut a: usize = 0;
    assert(v@.subrange(0, n as int) =~= v@);
    while a < n && char_is_space(v[a])
        invariant
            n == v@.len(),
            a <= n,
            trim_start(v@) == trim_start(v@.subrange(a as int, n as int)),
        decreases n - a,
    {
        assert(v@.subrange(a as int, n as int).drop_first() =~= v@.subrange(a + 1, n as int));
        a = a + 1;
    }
    assert(trim_start(v@.subrange(a as int, n as int)) == v@.subrange(a as int, n as int));
    let mut b: usize = n;
    while b > a && char_is_space(v[b - 1])
        invariant
            n == v@.len(),
            a <= b <= n,
            trimmed(v@) == trim_end(v@.subrange(a as int, b as int)),
        decreases b,
    {
        assert(v@.subrange(a as int, b as int).drop_last() =~= v@.subrange(a as int, b - 1));
        b = b - 1;
    }
    (a, b)
}

fn upper_char(c: char) -> (r: char)
    ensures
        r == upper(c),
{
    if 'a' <= c && c <= 'z' {
        ((c as u8) - 32) as char
    } else if c == '\u{131}' {
        'I'
    } else {
        c
    }
}

fn unit_multiplier(c: char) -> (r: Option<u64>)
    ensures
        r is None <==> unit_power(c) is None,
        r is Some ==> r->0 == pow1024(unit_power(c)->0) && r->0 <= 1099511627776,
{
    reveal_with_fuel(pow1024, 5);
    if c == 'B' {
        Some(1)
    } else if c == 'K' {
        Some(1024)
    } else if c == 'M' {
        Some(1048576)
    } else if c == 'G' {
        Some(1073741824)
    } else if c == 'T' {
        Some(1099511627776)
    } else {
        None
    }
}

/// The multiplier of the unit `v[i..j]`.
fn multiplier_of(v: &Vec<char>, i: usize, j: usize) -> (r: Option<u64>)
    requires
        i <= j <= v@.len(),
    ensures
        r is None <==> suffix_multiplier(v@.subrange(i as int, j as int)) is None,
        r is Some ==> r->0 as nat == suffix_multiplier(v@.subrange(i as int, j as int))->0,
        r is Some ==> 1 <= r->0 <= 1099511627776,
{
    if i == j {
        return None;
    }
    let first = upper_char(v[i]);
    let m = match unit_multiplier(first) {
        None => return None,
        Some(m) => m,
    };
    proof {
        reveal_with_fuel(pow1024, 5);
    }
    let len = j - i;
    if len == 1 {
        Some(m)
    } else if m != 1 && len == 2 && upper_char(v[i + 1]) == 'B' {
        Some(m)
    } else if m != 1 && len == 3 && upper_char(v[i + 1]) == 'I' && upper_char(v[i + 2]) == 'B' {
        Some(m)
    } else {
        None
    }
}

const DIGITS_CAP: u128 = 18446744073709551616;

/// The value of the digits `v[lo..hi]`, held at `2^64` once it gets there,
/// or `None` where one of them is no digit.
fn digits_capped(v: &Vec<char>, lo: usize, hi: usize) -> (r: Option<u128>)
    requires
        lo <= hi <= v@.len(),
    ensures
        r is None <==> !all_digits(v@.subrange(lo as int, hi as int)),
        r is Some ==> r->0 <= DIGITS_CAP,
        r is Some ==> (r->0 == DIGITS_CAP <==> digits_value(v@.subrange(lo as int, hi as int))
            >= DIGITS_CAP),
        r is Some && r->0 < DIGITS_CAP ==> r->0 == digits_value(
            v@.subrange(lo as int, hi as int),
        ),
{
    let mut acc: u128 = 0;
    let mut q: usize = lo;
    assert(v@.subrange(lo as int, lo as int) =~= Seq::<char>::empty());
    while q < hi
        invariant
            lo <= q <= hi <= v@.len(),
            all_digits(v@.subrange(lo as int, q as int)),
            acc <= DIGITS_CAP,
            acc == DIGITS_CAP <==> digits_value(v@.subrange(lo as int, q as int)) >= DIGITS_CAP,
            acc < DIGITS_CAP ==> acc == digits_value(v@.subrange(lo as int, q as int)),
        decreases hi - q,
    {
        let c = v[q];
        if !('0' <= c && c <= '9') {
            assert(v@.subrange(lo as int, hi as int)[q - lo] == c);
            return None;
        }
        let ghost prev = v@.subrange(lo as int, q as int);
        let ghost next = v@.subrange(lo as int, q + 1);
        assert(next.drop_last() =~= prev);
        assert(next.last() == c);
        let d = (c as u32 - '0' as u32) as u128;
        let t = acc * 10 + d;
        acc = if t >= DIGITS_CAP {
            DIGITS_CAP
        } else {
            t
        };
        q = q + 1;
        assert(all_digits(next)) by {
            assert forall|k: int| 0 <= k < next.len() implies is_digit(#[trigger] next[k]) by {
                if k < prev.len() {
                    assert(next[k] == prev[k]);
                }
            }
        }
    }
    Some(acc)
}

/// `floor(0.ds * m)` for the digits `ds = v[lo..hi]`, or `None` where one of
/// them is no digit.
fn fraction_scaled(v: &Vec<char>, lo: usize, hi: usize, m: u64) -> (r: Option<u64>)
    requires
        lo <= hi <= v@.len(),
        1 <= m <= 1099511627776,
    ensures
        r is None <==> !all_digits(v@.subrange(lo as int, hi as int)),
        r is Some ==> r->0 as nat == (digits_value(v@.subrange(lo as int, hi as int)) * (m as nat)) / pow10(
            (hi - lo) as nat,
        ),
        r is Some ==> r->0 < m,
{
    let mut f: u64 = 0;
    let mut q: usize = hi;
    assert(v@.subrange(hi as int, hi as int) =~= Seq::<char>::empty());
    while q > lo
        invariant
            lo <= q <= hi <= v@.len(),
            1 <= m <= 1099511627776,
            all_digits(v@.subrange(q as int, hi as int)),
            f as nat == frac_scaled(v@.subrange(q as int, hi as int), m as nat),
            f < m,
        decreases q,
    {
        let c = v[q - 1];
        if !('0' <= c && c <= '9') {
            assert(v@.subrange(lo as int, hi as int)[q - 1 - lo] == c);
            return None;
        }
        let ghost prev = v@.subrange(q as int, hi as int);
        let ghost next = v@.subrange(q - 1, hi as int);
        assert(next.drop_first() =~= prev);
        assert(next[0] == c);
        let d = (c as u32 - '0' as u32) as u64;
        assert(d * m <= 9 * m) by (nonlinear_arith)
            requires
                d <= 9,
        ;
        let t = d * m + f;
        f = t / 10;
        q = q - 1;
        assert(all_digits(next)) by {
            assert forall|k: int| 0 <= k < next.len() implies is_digit(#[trigger] next[k]) by {
                if k > 0 {
                    assert(next[k] == prev[k - 1]);
                }
            }
        }
    }
    assert(v@.subrange(q as int, hi as int) == v@.subrange(lo as int, hi as int));
    proof {
        lemma_frac_scaled_floor(v@.subrange(lo as int, hi as int), m as nat);
    }
    Some(f)
}

/// Index of the first `c` in `v[lo..hi]`, or `hi`.
fn find_char(v: &Vec<char>, lo: usize, hi: usize, c: char) -> (r: usize)
    requires
        lo <= hi <= v@.len(),
    ensures
        lo <= r <= hi,
        c == '.' ==> r - lo == dot_from(v@.subrange(lo as int, hi as int), 0),
        forall|k: int| lo <= k < r ==> v@[k] != c,
        r < hi ==> v@[r as int] == c,
{
    let mut p: usize = lo;
    let ghost b = v@.subrange(lo as int, hi as int);
    while p < hi && v[p] != c
        invariant
            lo <= p <= hi <= v@.len(),
            b == v@.subrange(lo as int, hi as int),
            forall|k: int| lo <= k < p ==> v@[k] != c,
            c == '.' ==> dot_from(b, 0) == dot_from(b, p - lo),
        decreases hi - p,
    {
        p = p + 1;
    }
    p
}

/// Index of the first ASCII letter in `v[lo..hi]`, if any.
fn find_alpha(v: &Vec<char>, lo: usize, hi: usize) -> (r: Option<usize>)
    requires
        lo <= hi <= v@.len(),
    ensures
        r is None ==> alpha_from(v@.subrange(lo as int, hi as int), 0) is None,
        r is Some ==> lo <= r->0 < hi && alpha_from(v@.subrange(lo as int, hi as int), 0)
            == Some(r->0 - lo),
{
    let mut p: usize = lo;
    let ghost b = v@.subrange(lo as int, hi as int);
    while p < hi
        invariant
            lo <= p <= hi <= v@.len(),
            b == v@.subrange(lo as int, hi as int),
            alpha_from(b, 0) == alpha_from(b, p - lo),
        decreases hi - p,
    {
        let c = v[p];
        if ('a' <= c && c <= 'z') || ('A' <= c && c <= 'Z') {
            return Some(p);
        }
        p = p + 1;
    }
    None
}

/// The number `v[i..j]` scaled by `m`, or `None` where it is no decimal
/// number.
fn scaled_number(v: &Vec<char>, i: usize, j: usize, m: u64) -> (r: Option<u64>)
    requires
        i <= j <= v@.len(),
        1 <= m <= 1099511627776,
    ensures
        r is None <==> !is_decimal(v@.subrange(i as int, j as int)),
        r is Some ==> r->0 == scaled_value(v@.subrange(i as int, j as int), m as nat),
{
    let ghost num = v@.subrange(i as int, j as int);
    let negative = i < j && v[i] == '-';
    let k: usize = if i < j && (v[i] == '+' || v[i] == '-') {
        i + 1
    } else {
        i
    };
    let ghost b = v@.subrange(k as int, j as int);
    assert(unsigned_part(num) =~= b);
    let p = find_char(v, k, j, '.');
    assert(b.subrange(0, p - k) =~= v@.subrange(k as int, p as int));
    let whole = digits_capped(v, k, p);
    let (flo, fhi) = if p < j {
        (p + 1, j)
    } else {
        (j, j)
    };
    assert(frac_digits(num) =~= v@.subrange(flo as int, fhi as int));
    let frac = fraction_scaled(v, flo, fhi, m);
    match (whole, frac) {
        (Some(w), Some(f)) => {
            if p - k + (fhi - flo) == 0 {
                return None;
            }
            if negative {
                return Some(0);
            }
            let ghost dv = digits_value(int_digits(num));
            assert(w * m <= DIGITS_CAP * 1099511627776) by (nonlinear_arith)
                requires
                    w <= DIGITS_CAP,
                    m <= 1099511627776,
            ;
            assert(dv * m >= dv) by (nonlinear_arith)
                requires
                    m >= 1,
            ;
            assert(w * m >= w) by (nonlinear_arith)
                requires
                    m >= 1,
            ;
            let total: u128 = w * (m as u128) + (f as u128);
            if total > u64::MAX as u128 {
                Some(u64::MAX)
            } else {
                Some(total as u64)
            }
        },
        _ => None,
    }
}

/// Parses a size such as `100MB`, `1.5GiB` or `500k` into a byte count.
///
/// Surrounding white space is ignored. The string is split at its first ASCII
/// letter: what comes before is a decimal number, what comes after is the
/// unit, read without regard to case, each step of the units worth 1024 of
/// the one below. The count is the whole part of number times unit, 0 for a
/// negative number and `u64::MAX` where it would be larger.
pub fn parse_human_size(s: &str) -> (r: Result<u64, SizeError>)
    ensures
        r == size_of_text(s@),
{
    let v = chars_of(s);
    let (a, b) = trim_bounds(&v);
    let ghost t = v@.subrange(a as int, b as int);
    let i = match find_alpha(&v, a, b) {
        None => return Err(SizeError::InvalidFormat),
        Some(i) => i,
    };
    assert(t.subrange(0, i - a) =~= v@.subrange(a as int, i as int));
    assert(t.subrange(i - a, t.len() as int) =~= v@.subrange(i as int, b as int));
    let m = multiplier_of(&v, i, b);
    let n = match m {
        None => 1,
        Some(m) => m,
    };
    let value = scaled_number(&v, a, i, n);
    match value {
        None => Err(SizeError::InvalidNumber),
        Some(x) => match m {
            None => Err(SizeError::UnknownSuffix),
            Some(_) => Ok(x),
        },
    }
}

} // verus!
