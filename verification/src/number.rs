//! Exact signed decimal numbers and numeric extraction from text.
//!
//! A number is scanned out of free text as the first substring of the
//! form: optional sign, optional integer digits, optional dot, fraction
//! digits — with at least one digit in all (the shape
//! `[+-]?([0-9]*[.])?[0-9]+`, matched leftmost and greedily). The value
//! is kept exactly as `mantissa / 10^scale`; comparisons cross-multiply,
//! so no rounding ever happens.

use vstd::prelude::*;

use crate::address::digits_val;
use crate::address::is_digit;
use crate::address::all_digits;
use crate::errors::FilterError;

verus! {

/// An exact signed decimal: the value `mantissa / 10^scale`.
#[derive(Clone, Copy, Debug, PartialEq, Eq, Structural)]
pub struct Number {
    pub mantissa: i64,
    pub scale: u32,
}

/// 10 to the power `n`.
pub open spec fn pow10(n: nat) -> int
    decreases n,
{
    if n == 0 {
        1
    } else {
        10 * pow10((n - 1) as nat)
    }
}

impl Number {
    /// Well-formed: few enough fractional digits that a cross-multiplied
    /// comparison fits machine arithmetic.
    pub open spec fn wf(self) -> bool {
        self.scale <= 18
    }

}

/// `a < b` as rationals: cross-multiplied mantissas compare.
pub open spec fn num_lt(a: Number, b: Number) -> bool {
    a.mantissa * pow10(b.scale as nat) < b.mantissa * pow10(a.scale as nat)
}

/// `a <= b` as rationals.
pub open spec fn num_le(a: Number, b: Number) -> bool {
    a.mantissa * pow10(b.scale as nat) <= b.mantissa * pow10(a.scale as nat)
}

proof fn lemma_pow10_pos(n: nat)
    ensures
        pow10(n) >= 1,
    decreases n,
{
    if n > 0 {
        lemma_pow10_pos((n - 1) as nat);
    }
}

proof fn lemma_pow10_18()
    ensures
        pow10(18) == 1000000000000000000,
{
    reveal_with_fuel(pow10, 19);
}

proof fn lemma_pow10_mono(m: nat, n: nat)
    requires
        m <= n,
    ensures
        pow10(m) <= pow10(n),
    decreases n,
{
    lemma_pow10_pos(m);
    if m < n {
        lemma_pow10_mono(m, (n - 1) as nat);
    }
}

/// `10^e`, computed; bounded because `e` is at most 18.
#[verifier::loop_isolation(false)]
fn pow10_u64(e: u32) -> (r: u64)
    requires
        e <= 18,
    ensures
        r == pow10(e as nat),
        1 <= r <= 1000000000000000000,
{
    proof {
        lemma_pow10_18();
    }
    let mut i: u32 = 0;
    let mut acc: u64 = 1;
    while i < e
        invariant
            0 <= i <= e,
            acc == pow10(i as nat),
        decreases e - i,
    {
        proof {
            lemma_pow10_mono((i + 1) as nat, 18nat);
        }
        acc = acc * 10;
        i = i + 1;
    }
    proof {
        lemma_pow10_mono(e as nat, 18nat);
        lemma_pow10_pos(e as nat);
    }
    acc
}

/// A product of an `i64` mantissa and a power of ten up to `10^18`
/// stays far inside `i128`.
proof fn lemma_cross_in_range(m: int, p: int)
    by (nonlinear_arith)
    requires
        -0x8000000000000000 <= m <= 0x7fffffffffffffff,
        1 <= p <= 1000000000000000000,
    ensures
        -0x8000000000000000000000000000000 <= m * p
            <= 0x8000000000000000000000000000000,
{
}

/// The two cross-multiplied sides that decide every comparison of `a`
/// and `b` as rationals.
fn cross_parts(a: &Number, b: &Number) -> (r: (i128, i128))
    requires
        a.wf(),
        b.wf(),
    ensures
        r.0 == a.mantissa * pow10(b.scale as nat),
        r.1 == b.mantissa * pow10(a.scale as nat),
{
    let pa = pow10_u64(a.scale);
    let pb = pow10_u64(b.scale);
    proof {
        lemma_cross_in_range(a.mantissa as int, pb as int);
        lemma_cross_in_range(b.mantissa as int, pa as int);
    }
    ((a.mantissa as i128) * (pb as i128), (b.mantissa as i128) * (pa as i128))
}

impl Number {
    /// Strictly less than, as rationals.
    pub fn lt(&self, other: &Number) -> (r: bool)
        requires
            self.wf(),
            other.wf(),
        ensures
            r == num_lt(*self, *other),
    {
        let (x, y) = cross_parts(self, other);
        x < y
    }

    /// Strictly greater than, as rationals.
    pub fn gt(&self, other: &Number) -> (r: bool)
        requires
            self.wf(),
            other.wf(),
        ensures
            r == num_lt(*other, *self),
    {
        let (x, y) = cross_parts(self, other);
        x > y
    }

    /// At most, as rationals.
    pub fn le(&self, other: &Number) -> (r: bool)
        requires
            self.wf(),
            other.wf(),
        ensures
            r == num_le(*self, *other),
    {
        let (x, y) = cross_parts(self, other);
        x <= y
    }

    /// At least, as rationals.
    pub fn ge(&self, other: &Number) -> (r: bool)
        requires
            self.wf(),
            other.wf(),
        ensures
            r == num_le(*other, *self),
    {
        let (x, y) = cross_parts(self, other);
        x >= y
    }
}

// ------------------------------------------------------------------
// The numeric token grammar.
// ------------------------------------------------------------------

/// The index just past the run of digits that starts at `i`.
pub open spec fn digits_run_end(s: Seq<char>, i: int) -> int
    decreases s.len() - i,
{
    if 0 <= i < s.len() && is_digit(s[i]) {
        digits_run_end(s, i + 1)
    } else {
        i
    }
}

/// Where the digits of a token at `i` begin: one past an optional sign.
pub open spec fn sign_end(s: Seq<char>, i: int) -> int {
    if s[i] == '+' || s[i] == '-' {
        i + 1
    } else {
        i
    }
}

/// Whether the token at `i` carries a fraction: after the integer digit
/// run comes a dot with at least one digit behind it.
pub open spec fn has_frac(s: Seq<char>, i: int) -> bool {
    let e1 = digits_run_end(s, sign_end(s, i));
    &&& e1 < s.len()
    &&& s[e1] == '.'
    &&& e1 + 1 < s.len()
    &&& is_digit(s[e1 + 1])
}

/// The end of the numeric token starting at `i`, if one starts there:
/// optional sign, greedy integer digits, then — only when a dot with a
/// digit behind it follows — the dot and the greedy fraction digits.
/// At least one digit is required in all.
pub open spec fn token_end_at(s: Seq<char>, i: int) -> Option<int> {
    let j = sign_end(s, i);
    let e1 = digits_run_end(s, j);
    if has_frac(s, i) {
        Some(digits_run_end(s, e1 + 1))
    } else if e1 > j {
        Some(e1)
    } else {
        None
    }
}

/// The first position at or after `i` where a numeric token starts.
pub open spec fn match_start_from(s: Seq<char>, i: int) -> Option<int>
    decreases s.len() - i,
{
    if 0 <= i < s.len() {
        if token_end_at(s, i) is Some {
            Some(i)
        } else {
            match_start_from(s, i + 1)
        }
    } else {
        None
    }
}

/// The pieces of the numeric token at `i`: its sign, the combined
/// integer-and-fraction digits as one magnitude, the number of fraction
/// digits, and where the token ends.
pub struct NumToken {
    pub neg: bool,
    pub mant: int,
    pub scale: nat,
    pub end: int,
}

/// Decode the token at `i` (meaningful when `token_end_at(s, i)` is
/// `Some`).
pub open spec fn token_model(s: Seq<char>, i: int) -> NumToken {
    let j = sign_end(s, i);
    let e1 = digits_run_end(s, j);
    if has_frac(s, i) {
        let e2 = digits_run_end(s, e1 + 1);
        NumToken {
            neg: s[i] == '-',
            mant: digits_val(s.subrange(j, e1)) * pow10((e2 - e1 - 1) as nat) + digits_val(
                s.subrange(e1 + 1, e2),
            ),
            scale: (e2 - e1 - 1) as nat,
            end: e2,
        }
    } else {
        NumToken { neg: s[i] == '-', mant: digits_val(s.subrange(j, e1)), scale: 0, end: e1 }
    }
}

/// The first numeric token of `s`, decoded; `None` when `s` holds none.
pub open spec fn extract_model(s: Seq<char>) -> Option<NumToken> {
    match match_start_from(s, 0) {
        None => None,
        Some(i) => Some(token_model(s, i)),
    }
}

/// Whether a token's magnitude and fraction length fit the `Number`
/// type: the magnitude in an `i64`, at most 18 fraction digits.
pub open spec fn token_fits(t: NumToken) -> bool {
    &&& t.mant <= i64::MAX
    &&& t.scale <= 18
}

/// The `Number` a fitting token denotes.
pub open spec fn token_number(t: NumToken) -> Number {
    Number {
        mantissa: (if t.neg {
            -t.mant
        } else {
            t.mant
        }) as i64,
        scale: t.scale as u32,
    }
}

// ------------------------------------------------------------------
// Arithmetic facts about digit runs.
// ------------------------------------------------------------------

/// Splitting a digit run: the whole value is the prefix shifted by the
/// suffix's width, plus the suffix.
pub(crate) proof fn lemma_digits_val_split(s: Seq<char>, lo: int, mid: int, hi: int)
    requires
        0 <= lo <= mid <= hi <= s.len(),
    ensures
        digits_val(s.subrange(lo, hi)) == digits_val(s.subrange(lo, mid)) * pow10(
            (hi - mid) as nat,
        ) + digits_val(s.subrange(mid, hi)),
    decreases hi - mid,
{
    if mid == hi {
        assert(s.subrange(mid, hi) =~= Seq::<char>::empty());
        assert(digits_val(s.subrange(lo, mid)) * 1 == digits_val(s.subrange(lo, mid)))
            by (nonlinear_arith);
    } else {
        lemma_digits_val_split(s, lo, mid, hi - 1);
        let a = s.subrange(lo, hi);
        let b = s.subrange(lo, hi - 1);
        assert(a.drop_last() =~= b);
        assert(a.last() == s[hi - 1]);
        let c = s.subrange(mid, hi);
        let d = s.subrange(mid, hi - 1);
        assert(c.drop_last() =~= d);
        assert(c.last() == s[hi - 1]);
        let p = digits_val(s.subrange(lo, mid));
        let w = pow10((hi - 1 - mid) as nat);
        assert((p * w) * 10 == p * (10 * w)) by (nonlinear_arith);
    }
}

/// A digit run's value is at least zero, and shifting it by a power of
/// ten never shrinks it.
proof fn lemma_digits_shift_ge(s: Seq<char>, lo: int, hi: int, k: nat)
    requires
        0 <= lo <= hi <= s.len(),
        all_digits(s.subrange(lo, hi)),
    ensures
        digits_val(s.subrange(lo, hi)) >= 0,
        digits_val(s.subrange(lo, hi)) * pow10(k) >= digits_val(s.subrange(lo, hi)),
{
    crate::address::lemma_digits_val_nonneg(s.subrange(lo, hi));
    lemma_pow10_pos(k);
    let v = digits_val(s.subrange(lo, hi));
    let p = pow10(k);
    assert(v >= 0 && p >= 1 ==> v * p >= v) by (nonlinear_arith);
}

/// A run reported by `digits_run_end` really is all digits.
proof fn lemma_run_all_digits(s: Seq<char>, lo: int, hi: int)
    requires
        0 <= lo <= hi <= s.len(),
        forall|t: int| lo <= t < hi ==> is_digit(#[trigger] s[t]),
    ensures
        all_digits(s.subrange(lo, hi)),
{
    assert(forall|t: int|
        0 <= t < hi - lo ==> is_digit(#[trigger] s.subrange(lo, hi)[t]) == is_digit(s[t + lo]));
}

/// Every position of the run `[i, digits_run_end(s, i))` is a digit, and
/// the run stops at the first non-digit.
proof fn lemma_digits_run_end_facts(s: Seq<char>, i: int)
    requires
        0 <= i <= s.len(),
    ensures
        i <= digits_run_end(s, i) <= s.len(),
        forall|t: int| i <= t < digits_run_end(s, i) ==> is_digit(#[trigger] s[t]),
        digits_run_end(s, i) == s.len() || !is_digit(s[digits_run_end(s, i)]),
    decreases s.len() - i,
{
    if i < s.len() && is_digit(s[i]) {
        lemma_digits_run_end_facts(s, i + 1);
    }
}

proof fn lemma_digits_run_end_is(s: Seq<char>, i: int, k: int)
    requires
        0 <= i <= k <= s.len(),
        forall|j: int| i <= j < k ==> is_digit(#[trigger] s[j]),
        k == s.len() || !is_digit(s[k]),
    ensures
        digits_run_end(s, i) == k,
    decreases k - i,
{
    if i < k {
        lemma_digits_run_end_is(s, i + 1, k);
    }
}

proof fn lemma_match_start_is(s: Seq<char>, i: int, k: int)
    requires
        0 <= i <= k <= s.len(),
        forall|j: int| i <= j < k ==> #[trigger] token_end_at(s, j) is None,
        k == s.len() || token_end_at(s, k) is Some,
    ensures
        match_start_from(s, i) == if k == s.len() {
            Option::<int>::None
        } else {
            Option::<int>::Some(k)
        },
    decreases k - i,
{
    if i < k {
        lemma_match_start_is(s, i + 1, k);
    }
}

// ------------------------------------------------------------------
// Executable extraction.
// ------------------------------------------------------------------

/// Whether `c` is a decimal digit.
pub(crate) fn is_digit_char(c: char) -> (r: bool)
    ensures
        r == is_digit(c),
{
    let u = c as u32;
    48 <= u && u <= 57
}

/// The characters of `s`, one by one.
pub(crate) fn chars_vec(s: &str) -> (r: Vec<char>)
    ensures
        r@ == s@,
{
    let n = s.unicode_len();
    let mut v: Vec<char> = Vec::new();
    let mut i: usize = 0;
    while i < n
        invariant
            0 <= i <= n,
            n == s@.len(),
            v@ =~= s@.subrange(0, i as int),
        decreases n - i,
    {
        let c = s.get_char(i);
        v.push(c);
        proof {
            assert(s@.subrange(0, i + 1) =~= s@.subrange(0, i as int).push(s@[i as int]));
        }
        i = i + 1;
    }
    proof {
        assert(s@.subrange(0, n as int) =~= s@);
    }
    v
}

/// The end of the digit run starting at `i`.
#[verifier::loop_isolation(false)]
fn digits_end_exec(v: &Vec<char>, i: usize) -> (e: usize)
    requires
        i <= v@.len(),
    ensures
        e == digits_run_end(v@, i as int),
        i <= e <= v@.len(),
{
    let n = v.len();
    let mut e = i;
    while e < n && is_digit_char(v[e])
        invariant
            i <= e <= n,
            forall|t: int| i <= t < e ==> is_digit(#[trigger] v@[t]),
        decreases n - e,
    {
        e = e + 1;
    }
    proof {
        lemma_digits_run_end_is(v@, i as int, e as int);
    }
    e
}

/// The end of the numeric token starting at `i`, if one starts there.
fn token_end_exec(v: &Vec<char>, i: usize) -> (r: Option<usize>)
    requires
        i < v@.len(),
    ensures
        match r {
            Some(e) => token_end_at(v@, i as int) == Some(e as int),
            None => token_end_at(v@, i as int) is None,
        },
{
    let n = v.len();
    let c = v[i];
    let j = if c == '+' || c == '-' {
        i + 1
    } else {
        i
    };
    let e1 = digits_end_exec(v, j);
    if e1 < n && v[e1] == '.' && e1 + 1 < n && is_digit_char(v[e1 + 1]) {
        Some(digits_end_exec(v, e1 + 1))
    } else if e1 > j {
        Some(e1)
    } else {
        None
    }
}

/// The first numeric token of `v`: its start and end.
#[verifier::loop_isolation(false)]
fn find_token(v: &Vec<char>) -> (r: Option<(usize, usize)>)
    ensures
        match r {
            Some(p) => {
                &&& match_start_from(v@, 0) == Some(p.0 as int)
                &&& token_end_at(v@, p.0 as int) == Some(p.1 as int)
                &&& p.0 <= p.1 <= v@.len()
            },
            None => match_start_from(v@, 0) is None,
        },
{
    let n = v.len();
    let mut i: usize = 0;
    while i < n
        invariant
            0 <= i <= n,
            forall|t: int| 0 <= t < i ==> #[trigger] token_end_at(v@, t) is None,
        decreases n - i,
    {
        match token_end_exec(v, i) {
            Some(e) => {
                proof {
                    lemma_match_start_is(v@, 0, i as int);
                    lemma_digits_run_end_facts(v@, sign_end(v@, i as int));
                    if has_frac(v@, i as int) {
                        lemma_digits_run_end_facts(
                            v@,
                            digits_run_end(v@, sign_end(v@, i as int)) + 1,
                        );
                    }
                }
                return Some((i, e));
            },
            None => {
                i = i + 1;
            },
        }
    }
    proof {
        lemma_match_start_is(v@, 0, n as int);
    }
    None
}

/// The running magnitude cap: a partial digit value above `i64::MAX`
/// means the full token can never fit.
#[verifier::loop_isolation(false)]
fn digits_value_exec(v: &Vec<char>, lo: usize, hi: usize) -> (r: Option<u64>)
    requires
        0 <= lo <= hi <= v@.len(),
        forall|t: int| lo <= t < hi ==> is_digit(#[trigger] v@[t]),
    ensures
        match r {
            Some(x) => x == digits_val(v@.subrange(lo as int, hi as int)) && x <= i64::MAX,
            None => digits_val(v@.subrange(lo as int, hi as int)) > i64::MAX,
        },
{
    let mut acc: u64 = 0;
    let mut t = lo;
    while t < hi
        invariant
            lo <= t <= hi,
            acc == digits_val(v@.subrange(lo as int, t as int)),
            acc <= i64::MAX,
        decreases hi - t,
    {
        let d = (v[t] as u32) - 48;
        proof {
            assert(v@.subrange(lo as int, t + 1).drop_last() =~= v@.subrange(lo as int, t as int));
            assert(v@.subrange(lo as int, t + 1).last() == v@[t as int]);
        }
        let wide: u128 = (acc as u128) * 10 + (d as u128);
        t = t + 1;
        if wide > i64::MAX as u128 {
            proof {
                lemma_run_all_digits(v@, t as int, hi as int);
                lemma_digits_val_split(v@, lo as int, t as int, hi as int);
                lemma_digits_shift_ge(v@, lo as int, t as int, (hi - t) as nat);
                crate::address::lemma_digits_val_nonneg(v@.subrange(t as int, hi as int));
                assert(digits_val(v@.subrange(lo as int, t as int)) * pow10((hi - t) as nat)
                    >= digits_val(v@.subrange(lo as int, t as int))) by {
                    lemma_run_all_digits(v@, lo as int, t as int);
                    lemma_digits_shift_ge(v@, lo as int, t as int, (hi - t) as nat);
                }
            }
            return None;
        }
        acc = wide as u64;
    }
    Some(acc)
}

/// Extract the first number in `s`: the leftmost substring of the form
/// optional sign, optional integer digits, optional dot-led fraction,
/// with at least one digit. Fails with `NoNumericMatch` when no such
/// substring exists, and with `NumericOverflow` when the digits' value
/// does not fit an `i64` mantissa or more than 18 fraction digits were
/// written.
pub fn extract_number(s: &str) -> (r: Result<Number, FilterError>)
    ensures
        match extract_model(s@) {
            None => r == Err::<Number, FilterError>(FilterError::NoNumericMatch),
            Some(t) => if token_fits(t) {
                r == Ok::<Number, FilterError>(token_number(t))
            } else {
                r == Err::<Number, FilterError>(FilterError::NumericOverflow)
            },
        },
{
    let v = chars_vec(s);
    extract_number_chars(&v)
}

/// `extract_number` over an already-split character sequence.
#[verifier::loop_isolation(false)]
fn extract_number_chars(v: &Vec<char>) -> (r: Result<Number, FilterError>)
    ensures
        match extract_model(v@) {
            None => r == Err::<Number, FilterError>(FilterError::NoNumericMatch),
            Some(t) => if token_fits(t) {
                r == Ok::<Number, FilterError>(token_number(t))
            } else {
                r == Err::<Number, FilterError>(FilterError::NumericOverflow)
            },
        },
{
    let (start, _end) = match find_token(v) {
        None => {
            return Err(FilterError::NoNumericMatch);
        },
        Some(p) => p,
    };
    let n = v.len();
    let c = v[start];
    let neg = c == '-';
    let j = if c == '+' || c == '-' {
        start + 1
    } else {
        start
    };
    let e1 = digits_end_exec(v, j);
    proof {
        lemma_digits_run_end_facts(v@, j as int);
    }
    let ghost tok = token_model(v@, start as int);
    if e1 < n && v[e1] == '.' && e1 + 1 < n && is_digit_char(v[e1 + 1]) {
        let e2 = digits_end_exec(v, e1 + 1);
        proof {
            lemma_digits_run_end_facts(v@, e1 + 1);
        }
        let scale_wide = e2 - (e1 + 1);
        if scale_wide > 18 {
            return Err(FilterError::NumericOverflow);
        }
        let int_part = match digits_value_exec(v, j, e1) {
            None => {
                proof {
                    lemma_frac_mant_ge_int(v@, j as int, e1 as int, e2 as int);
                }
                return Err(FilterError::NumericOverflow);
            },
            Some(x) => x,
        };
        let frac_part = match digits_value_exec(v, e1 + 1, e2) {
            None => {
                proof {
                    lemma_frac_mant_ge_frac(v@, j as int, e1 as int, e2 as int);
                }
                return Err(FilterError::NumericOverflow);
            },
            Some(x) => x,
        };
        let p = pow10_u64(scale_wide as u32);
        proof {
            assert((int_part as int) * (p as int) <= 0x7fffffffffffffff
                * 1000000000000000000int) by (nonlinear_arith)
                requires
                    0 <= int_part <= 0x7fffffffffffffff,
                    0 <= p <= 1000000000000000000,
            ;
        }
        let shifted: u128 = (int_part as u128) * (p as u128) + (frac_part as u128);
        proof {
            lemma_mant_parts(int_part as int, frac_part as int, p as int);
        }
        if shifted > i64::MAX as u128 {
            return Err(FilterError::NumericOverflow);
        }
        let mant = shifted as u64;
        let mantissa: i64 = if neg {
            (-(mant as i128)) as i64
        } else {
            mant as i64
        };
        Ok(Number { mantissa, scale: scale_wide as u32 })
    } else {
        let mant = match digits_value_exec(v, j, e1) {
            None => {
                return Err(FilterError::NumericOverflow);
            },
            Some(x) => x,
        };
        let mantissa: i64 = if neg {
            (-(mant as i128)) as i64
        } else {
            mant as i64
        };
        Ok(Number { mantissa, scale: 0 })
    }
}

// ------------------------------------------------------------------
// Rendering.
// ------------------------------------------------------------------

/// The character for one decimal digit.
pub open spec fn digit_char(d: nat) -> char {
    if d == 0 {
        '0'
    } else if d == 1 {
        '1'
    } else if d == 2 {
        '2'
    } else if d == 3 {
        '3'
    } else if d == 4 {
        '4'
    } else if d == 5 {
        '5'
    } else if d == 6 {
        '6'
    } else if d == 7 {
        '7'
    } else if d == 8 {
        '8'
    } else {
        '9'
    }
}

/// The decimal digits of `v`, most significant first, no leading zeros
/// (a single `'0'` for zero).
pub open spec fn dec_str(v: nat) -> Seq<char>
    decreases v,
{
    if v < 10 {
        seq![digit_char(v)]
    } else {
        dec_str(v / 10).push(digit_char(v % 10))
    }
}

/// Exactly `k` digits of `f` (taken modulo `10^k`), zero-padded on the
/// left: the written fraction digits.
pub open spec fn frac_str(f: nat, k: nat) -> Seq<char>
    decreases k,
{
    if k == 0 {
        Seq::empty()
    } else {
        frac_str(f / 10, (k - 1) as nat).push(digit_char(f % 10))
    }
}

/// How a number is written: a minus sign when negative, the integer
/// part, and for a positive scale a dot followed by exactly `scale`
/// fraction digits.
pub open spec fn number_text(n: Number) -> Seq<char> {
    let m = if n.mantissa >= 0 {
        n.mantissa as int
    } else {
        -(n.mantissa as int)
    };
    let ip = m / pow10(n.scale as nat);
    let fp = m % pow10(n.scale as nat);
    (if n.mantissa < 0 {
        seq!['-']
    } else {
        Seq::<char>::empty()
    }) + dec_str(ip as nat) + (if n.scale == 0 {
        Seq::<char>::empty()
    } else {
        seq!['.'] + frac_str(fp as nat, n.scale as nat)
    })
}

/// One decimal digit as text.
fn digit_str(d: u64) -> (r: &'static str)
    requires
        d < 10,
    ensures
        r@ == seq![digit_char(d as nat)],
{
    proof {
        reveal_strlit("0");
        reveal_strlit("1");
        reveal_strlit("2");
        reveal_strlit("3");
        reveal_strlit("4");
        reveal_strlit("5");
        reveal_strlit("6");
        reveal_strlit("7");
        reveal_strlit("8");
        reveal_strlit("9");
        assert("0"@ =~= seq!['0']);
        assert("1"@ =~= seq!['1']);
        assert("2"@ =~= seq!['2']);
        assert("3"@ =~= seq!['3']);
        assert("4"@ =~= seq!['4']);
        assert("5"@ =~= seq!['5']);
        assert("6"@ =~= seq!['6']);
        assert("7"@ =~= seq!['7']);
        assert("8"@ =~= seq!['8']);
        assert("9"@ =~= seq!['9']);
    }
    match d {
        0 => "0",
        1 => "1",
        2 => "2",
        3 => "3",
        4 => "4",
        5 => "5",
        6 => "6",
        7 => "7",
        8 => "8",
        _ => "9",
    }
}

/// The decimal digits of `v` as text.
fn u64_dec_string(v: u64) -> (r: String)
    ensures
        r@ == dec_str(v as nat),
    decreases v,
{
    if v < 10 {
        String::from_str(digit_str(v))
    } else {
        let mut s = u64_dec_string(v / 10);
        s.append(digit_str(v % 10));
        proof {
            assert(dec_str((v as nat) / 10).push(digit_char((v as nat) % 10)) =~= dec_str(
                (v as nat) / 10,
            ) + seq![digit_char((v as nat) % 10)]);
        }
        s
    }
}

/// Exactly `k` fraction digits of `f`, zero-padded.
fn frac_string(f: u64, k: u32) -> (r: String)
    ensures
        r@ == frac_str(f as nat, k as nat),
    decreases k,
{
    if k == 0 {
        let s = String::new();
        s
    } else {
        let mut s = frac_string(f / 10, k - 1);
        s.append(digit_str(f % 10));
        proof {
            assert(frac_str((f as nat) / 10, (k - 1) as nat).push(digit_char((f as nat) % 10))
                =~= frac_str((f as nat) / 10, (k - 1) as nat) + seq![digit_char(
                (f as nat) % 10,
            )]);
        }
        s
    }
}

impl Number {
    /// Write the exact decimal out: an optional minus sign, the integer
    /// part, and for a positive scale a dot with exactly `scale`
    /// fraction digits.
    pub fn to_text(&self) -> (r: String)
        requires
            self.wf(),
        ensures
            r@ == number_text(*self),
    {
        proof {
            reveal_strlit("-");
            reveal_strlit(".");
            assert("-"@ =~= seq!['-']);
            assert("."@ =~= seq!['.']);
        }
        let neg = self.mantissa < 0;
        let mag: u64 = if neg {
            (-(self.mantissa as i128)) as u64
        } else {
            self.mantissa as u64
        };
        let p = pow10_u64(self.scale);
        let ip = mag / p;
        let fp = mag % p;
        let mut s = String::new();
        if neg {
            s.append("-");
        }
        let ips = u64_dec_string(ip);
        s.append(ips.as_str());
        if self.scale > 0 {
            s.append(".");
            let fps = frac_string(fp, self.scale);
            s.append(fps.as_str());
        }
        proof {
            assert(s@ =~= number_text(*self));
        }
        s
    }
}

/// When the integer digits alone overflow, the whole mantissa does.
proof fn lemma_frac_mant_ge_int(s: Seq<char>, j: int, e1: int, e2: int)
    requires
        0 <= j <= e1,
        e1 + 1 <= e2 <= s.len(),
        forall|t: int| j <= t < e1 ==> is_digit(#[trigger] s[t]),
        forall|t: int| e1 + 1 <= t < e2 ==> is_digit(#[trigger] s[t]),
    ensures
        digits_val(s.subrange(j, e1)) * pow10((e2 - e1 - 1) as nat) + digits_val(
            s.subrange(e1 + 1, e2),
        ) >= digits_val(s.subrange(j, e1)),
{
    lemma_run_all_digits(s, j, e1);
    lemma_run_all_digits(s, e1 + 1, e2);
    lemma_digits_shift_ge(s, j, e1, (e2 - e1 - 1) as nat);
    crate::address::lemma_digits_val_nonneg(s.subrange(e1 + 1, e2));
}

/// When the fraction digits alone overflow, the whole mantissa does.
proof fn lemma_frac_mant_ge_frac(s: Seq<char>, j: int, e1: int, e2: int)
    requires
        0 <= j <= e1,
        e1 + 1 <= e2 <= s.len(),
        forall|t: int| j <= t < e1 ==> is_digit(#[trigger] s[t]),
        forall|t: int| e1 + 1 <= t < e2 ==> is_digit(#[trigger] s[t]),
    ensures
        digits_val(s.subrange(j, e1)) * pow10((e2 - e1 - 1) as nat) + digits_val(
            s.subrange(e1 + 1, e2),
        ) >= digits_val(s.subrange(e1 + 1, e2)),
{
    lemma_run_all_digits(s, j, e1);
    lemma_run_all_digits(s, e1 + 1, e2);
    lemma_digits_shift_ge(s, j, e1, (e2 - e1 - 1) as nat);
    crate::address::lemma_digits_val_nonneg(s.subrange(j, e1));
    let a = digits_val(s.subrange(j, e1));
    let p = pow10((e2 - e1 - 1) as nat);
    lemma_pow10_pos((e2 - e1 - 1) as nat);
    assert(a >= 0 && p >= 1 ==> a * p >= 0) by (nonlinear_arith);
}

/// The shifted integer part plus the fraction part never lies below
/// either part.
proof fn lemma_mant_parts(a: int, f: int, p: int)
    by (nonlinear_arith)
    requires
        a >= 0,
        f >= 0,
        p >= 1,
    ensures
        a * p + f >= a,
        a * p + f >= f,
        a * p >= 0,
{
}

} // verus!
