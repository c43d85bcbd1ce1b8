//! Parsing of spreadsheet cell and range references.
//!
//! A cell reference is one or more uppercase letters followed by one or
//! more decimal digits, e.g. `"AB12"`. The letter run is a bijective
//! base-26 numeral (each position contributes `letterValue + 1`), the
//! digit run an ordinary base-10 numeral; both are 1-based and the parsed
//! coordinate is zero-based. A range reference is two cell references
//! joined by a single `:`.

use vstd::prelude::*;

use crate::errors::FilterError;

verus! {

/// A zero-based cell position: `col` first, then `row`, matching the
/// letters-then-digits order of a reference such as `"A1"`.
#[derive(Clone, Copy, Debug, PartialEq, Eq, Structural)]
pub struct CellCoordinate {
    pub col: u32,
    pub row: u32,
}

/// The two corners of a rectangular region, as written in the reference:
/// `start` from the text before the `:`, `end` from the text after it.
/// The parser does not reorder them.
#[derive(Clone, Copy, Debug, PartialEq, Eq, Structural)]
pub struct CellRange {
    pub start: CellCoordinate,
    pub end: CellCoordinate,
}

/// One more than a zero-based `u32` coordinate can be, as an `int`:
/// the largest 1-based column or row number that still fits.
pub open spec fn coord_limit() -> int {
    0x1_0000_0000
}

pub open spec fn is_upper(c: char) -> bool {
    65 <= c as u32 && c as u32 <= 90
}

pub open spec fn is_digit(c: char) -> bool {
    48 <= c as u32 && c as u32 <= 57
}

/// The 1-based value of one column letter: `'A'` is 1, `'Z'` is 26.
pub open spec fn letter_val(c: char) -> int {
    c as u32 - 64
}

pub open spec fn digit_val(c: char) -> int {
    c as u32 - 48
}

pub open spec fn all_upper(s: Seq<char>) -> bool {
    forall|i: int| 0 <= i < s.len() ==> is_upper(#[trigger] s[i])
}

pub open spec fn all_digits(s: Seq<char>) -> bool {
    forall|i: int| 0 <= i < s.len() ==> is_digit(#[trigger] s[i])
}

/// The letter run read as a bijective base-26 numeral, 1-based:
/// `"A"` is 1, `"Z"` is 26, `"AA"` is 27.
pub open spec fn letters_val(s: Seq<char>) -> int
    decreases s.len(),
{
    if s.len() == 0 {
        0
    } else {
        letters_val(s.drop_last()) * 26 + letter_val(s.last())
    }
}

/// The digit run read as an ordinary base-10 numeral.
pub open spec fn digits_val(s: Seq<char>) -> int
    decreases s.len(),
{
    if s.len() == 0 {
        0
    } else {
        digits_val(s.drop_last()) * 10 + digit_val(s.last())
    }
}

/// The index just past the run of uppercase letters that starts at `i`.
pub open spec fn letter_run_end(s: Seq<char>, i: int) -> int
    decreases s.len() - i,
{
    if 0 <= i < s.len() && is_upper(s[i]) {
        letter_run_end(s, i + 1)
    } else {
        i
    }
}

/// The index of the first `':'` at or after `i`, or `s.len()` if none.
pub open spec fn first_colon(s: Seq<char>, i: int) -> int
    decreases s.len() - i,
{
    if 0 <= i < s.len() {
        if s[i] == ':' {
            i
        } else {
            first_colon(s, i + 1)
        }
    } else {
        s.len() as int
    }
}

/// The letter run of a reference (everything before the first non-letter).
pub open spec fn ref_letters(s: Seq<char>) -> Seq<char> {
    s.subrange(0, letter_run_end(s, 0))
}

/// The rest of a reference after its letter run.
pub open spec fn ref_digits(s: Seq<char>) -> Seq<char> {
    s.subrange(letter_run_end(s, 0), s.len() as int)
}

/// A well-formed cell reference: a nonempty letter run followed by a
/// nonempty digit run and nothing else.
pub open spec fn valid_cell_ref(s: Seq<char>) -> bool {
    &&& 1 <= letter_run_end(s, 0)
    &&& letter_run_end(s, 0) < s.len()
    &&& all_digits(ref_digits(s))
}

/// A cell reference that parses: well-formed, and both zero-based
/// coordinates fit in a `u32`. The digit run must name a row of at least
/// 1, since rows are 1-based in a reference.
pub open spec fn cell_ref_ok(s: Seq<char>) -> bool {
    &&& valid_cell_ref(s)
    &&& letters_val(ref_letters(s)) <= coord_limit()
    &&& 1 <= digits_val(ref_digits(s))
    &&& digits_val(ref_digits(s)) <= coord_limit()
}

/// The zero-based column a valid reference names.
pub open spec fn ref_col(s: Seq<char>) -> int {
    letters_val(ref_letters(s)) - 1
}

/// The zero-based row a valid reference names.
pub open spec fn ref_row(s: Seq<char>) -> int {
    digits_val(ref_digits(s)) - 1
}

/// A well-formed range reference: a single `':'` with a parseable cell
/// reference on each side. (A second `':'` cannot occur, since a cell
/// reference holds only letters and digits.)
pub open spec fn range_ref_ok(s: Seq<char>) -> bool {
    &&& first_colon(s, 0) < s.len()
    &&& cell_ref_ok(s.subrange(0, first_colon(s, 0)))
    &&& cell_ref_ok(s.subrange(first_colon(s, 0) + 1, s.len() as int))
}

/// The coordinate pair a valid range reference names: left half, then
/// right half, in writing order.
pub open spec fn range_of(s: Seq<char>) -> (CellCoordinate, CellCoordinate) {
    let p = first_colon(s, 0);
    (
        CellCoordinate {
            col: ref_col(s.subrange(0, p)) as u32,
            row: ref_row(s.subrange(0, p)) as u32,
        },
        CellCoordinate {
            col: ref_col(s.subrange(p + 1, s.len() as int)) as u32,
            row: ref_row(s.subrange(p + 1, s.len() as int)) as u32,
        },
    )
}

/// Whether `c` is an uppercase column letter.
fn is_upper_char(c: char) -> (r: bool)
    ensures
        r == is_upper(c),
{
    let u = c as u32;
    65 <= u && u <= 90
}

proof fn lemma_letter_run_end_is(s: Seq<char>, i: int, k: int)
    requires
        0 <= i <= k <= s.len(),
        forall|j: int| i <= j < k ==> is_upper(#[trigger] s[j]),
        k == s.len() || !is_upper(s[k]),
    ensures
        letter_run_end(s, i) == k,
    decreases k - i,
{
    if i < k {
        lemma_letter_run_end_is(s, i + 1, k);
    }
}

proof fn lemma_first_colon_is(s: Seq<char>, i: int, k: int)
    requires
        0 <= i <= k <= s.len(),
        forall|j: int| i <= j < k ==> #[trigger] s[j] != ':',
        k == s.len() || s[k] == ':',
    ensures
        first_colon(s, i) == k,
    decreases k - i,
{
    if i < k {
        lemma_first_colon_is(s, i + 1, k);
    }
}

/// A nonempty all-letter run has value at least 1, and any run at least 0.
proof fn lemma_letters_val_pos(s: Seq<char>)
    requires
        all_upper(s),
    ensures
        letters_val(s) >= if s.len() == 0 { 0int } else { 1int },
    decreases s.len(),
{
    if s.len() > 0 {
        assert(all_upper(s.drop_last())) by {
            assert(forall|i: int|
                0 <= i < s.len() - 1 ==> is_upper(#[trigger] s.drop_last()[i]) == is_upper(s[i]));
        }
        lemma_letters_val_pos(s.drop_last());
    }
}

pub(crate) proof fn lemma_digits_val_nonneg(s: Seq<char>)
    requires
        all_digits(s),
    ensures
        digits_val(s) >= 0,
    decreases s.len(),
{
    if s.len() > 0 {
        assert(all_digits(s.drop_last())) by {
            assert(forall|i: int|
                0 <= i < s.len() - 1 ==> is_digit(#[trigger] s.drop_last()[i]) == is_digit(s[i]));
        }
        lemma_digits_val_nonneg(s.drop_last());
    }
}

/// Growing an all-letter run never shrinks its value.
proof fn lemma_letters_val_prefix_le(s: Seq<char>, i: int, k: int)
    requires
        0 <= i <= k <= s.len(),
        all_upper(s.subrange(0, k)),
    ensures
        letters_val(s.subrange(0, i)) <= letters_val(s.subrange(0, k)),
    decreases k - i,
{
    if i < k {
        let t = s.subrange(0, k);
        assert(all_upper(s.subrange(0, k - 1))) by {
            assert(forall|j: int|
                0 <= j < k - 1 ==> is_upper(#[trigger] s.subrange(0, k - 1)[j]) == is_upper(t[j]));
        }
        assert(t.drop_last() =~= s.subrange(0, k - 1));
        lemma_letters_val_pos(s.subrange(0, k - 1));
        assert(letters_val(s.subrange(0, k - 1)) <= letters_val(t));
        lemma_letters_val_prefix_le(s, i, k - 1);
    }
}

/// Growing an all-digit run never shrinks its value.
proof fn lemma_digits_val_prefix_le(s: Seq<char>, lo: int, i: int, k: int)
    requires
        0 <= lo <= i <= k <= s.len(),
        all_digits(s.subrange(lo, k)),
    ensures
        digits_val(s.subrange(lo, i)) <= digits_val(s.subrange(lo, k)),
    decreases k - i,
{
    if i < k {
        let t = s.subrange(lo, k);
        assert(all_digits(s.subrange(lo, k - 1))) by {
            assert(forall|j: int|
                0 <= j < k - 1 - lo ==> is_digit(#[trigger] s.subrange(lo, k - 1)[j]) == is_digit(
                    t[j],
                ));
        }
        assert(t.drop_last() =~= s.subrange(lo, k - 1));
        lemma_digits_val_nonneg(s.subrange(lo, k - 1));
        assert(digits_val(s.subrange(lo, k - 1)) <= digits_val(t));
        lemma_digits_val_prefix_le(s, lo, i, k - 1);
    }
}

/// Parse one cell reference, e.g. `"AB12"`, into its zero-based
/// coordinate. Succeeds exactly on references that are a nonempty
/// uppercase-letter run followed by a nonempty digit run, whose column
/// and 1-based row both fit the coordinate type (and the row is not 0).
#[verifier::loop_isolation(false)]
pub fn parse_side(a: &str) -> (r: Result<CellCoordinate, FilterError>)
    ensures
        r is Ok <==> cell_ref_ok(a@),
        r is Ok ==> r->Ok_0.col == ref_col(a@) && r->Ok_0.row == ref_row(a@),
        r is Err ==> r->Err_0 == FilterError::InvalidAddress,
{
    let n = a.unicode_len();
    // Find the end of the leading letter run.
    let mut k: usize = 0;
    while k < n && is_upper_char(a.get_char(k))
        invariant
            0 <= k <= n,
            forall|j: int| 0 <= j < k ==> is_upper(#[trigger] a@[j]),
        decreases n - k,
    {
        k = k + 1;
    }
    proof {
        lemma_letter_run_end_is(a@, 0, k as int);
    }
    if k == 0 || k == n {
        return Err(FilterError::InvalidAddress);
    }
    // Everything after the letters must be digits.
    let mut j: usize = k;
    while j < n
        invariant
            k <= j <= n,
            n == a@.len(),
            forall|t: int| k <= t < j ==> is_digit(#[trigger] a@[t]),
        decreases n - j,
    {
        let u = a.get_char(j) as u32;
        if !(48 <= u && u <= 57) {
            proof {
                assert(ref_digits(a@)[j - k] == a@[j as int]);
            }
            return Err(FilterError::InvalidAddress);
        }
        j = j + 1;
    }
    assert(all_digits(ref_digits(a@))) by {
        assert(forall|t: int|
            0 <= t < n - k ==> is_digit(#[trigger] ref_digits(a@)[t]) == is_digit(a@[t + k]));
    }
    // Decode the column: bijective base 26, 1-based, then shift to 0-based.
    let mut col_acc: u64 = 0;
    let mut i: usize = 0;
    while i < k
        invariant
            0 <= i <= k <= n,
            n == a@.len(),
            forall|j2: int| 0 <= j2 < k ==> is_upper(#[trigger] a@[j2]),
            col_acc == letters_val(a@.subrange(0, i as int)),
            col_acc <= coord_limit(),
        decreases k - i,
    {
        let c = a.get_char(i) as u32;
        proof {
            assert(a@.subrange(0, i + 1).drop_last() =~= a@.subrange(0, i as int));
            assert(a@.subrange(0, i + 1).last() == a@[i as int]);
        }
        col_acc = col_acc * 26 + (c as u64 - 64);
        i = i + 1;
        if col_acc > 4294967296u64 {
            proof {
                assert(all_upper(ref_letters(a@))) by {
                    assert(forall|t: int|
                        0 <= t < k ==> is_upper(#[trigger] ref_letters(a@)[t]) == is_upper(a@[t]));
                }
                lemma_letters_val_prefix_le(a@, i as int, k as int);
            }
            return Err(FilterError::InvalidAddress);
        }
    }
    assert(a@.subrange(0, k as int) == ref_letters(a@));
    proof {
        lemma_letters_val_pos(ref_letters(a@));
    }
    // Decode the row: base 10, 1-based, then shift to 0-based.
    let mut row_acc: u64 = 0;
    let mut d: usize = k;
    while d < n
        invariant
            k <= d <= n,
            n == a@.len(),
            1 <= k,
            all_digits(a@.subrange(k as int, n as int)),
            forall|t: int| k <= t < n ==> is_digit(#[trigger] a@[t]),
            row_acc == digits_val(a@.subrange(k as int, d as int)),
            row_acc <= coord_limit(),
        decreases n - d,
    {
        let c = a.get_char(d) as u32;
        proof {
            assert(a@.subrange(k as int, d + 1).drop_last() =~= a@.subrange(k as int, d as int));
            assert(a@.subrange(k as int, d + 1).last() == a@[d as int]);
        }
        row_acc = row_acc * 10 + (c as u64 - 48);
        d = d + 1;
        if row_acc > 4294967296u64 {
            proof {
                lemma_digits_val_prefix_le(a@, k as int, d as int, n as int);
            }
            return Err(FilterError::InvalidAddress);
        }
    }
    assert(a@.subrange(k as int, n as int) == ref_digits(a@));
    if row_acc == 0 {
        return Err(FilterError::InvalidAddress);
    }
    Ok(CellCoordinate { col: (col_acc - 1) as u32, row: (row_acc - 1) as u32 })
}

/// Parse a range reference such as `"A1:C10"`: a single `':'` with a cell
/// reference on each side. The two corners come back in writing order,
/// without normalization.
#[verifier::loop_isolation(false)]
pub fn to_coords(a: &str) -> (r: Result<CellRange, FilterError>)
    ensures
        r is Ok <==> range_ref_ok(a@),
        r is Ok ==> r->Ok_0.start == range_of(a@).0 && r->Ok_0.end == range_of(a@).1,
        r is Err ==> r->Err_0 == FilterError::InvalidAddress,
{
    let n = a.unicode_len();
    let mut p: usize = 0;
    while p < n && a.get_char(p) != ':'
        invariant
            0 <= p <= n,
            forall|j: int| 0 <= j < p ==> #[trigger] a@[j] != ':',
        decreases n - p,
    {
        p = p + 1;
    }
    proof {
        lemma_first_colon_is(a@, 0, p as int);
    }
    if p == n {
        return Err(FilterError::InvalidAddress);
    }
    let lhs = a.substring_char(0, p);
    let rhs = a.substring_char(p + 1, n);
    let start = match parse_side(lhs) {
        Ok(c) => c,
        Err(e) => {
            return Err(e);
        },
    };
    let end = match parse_side(rhs) {
        Ok(c) => c,
        Err(e) => {
            return Err(e);
        },
    };
    Ok(CellRange { start, end })
}

/// No two distinct letter runs decode to the same column: the bijective
/// base-26 reading of `parse_side` is injective, so every column number
/// has at most one name.
pub proof fn lemma_letters_val_injective(s1: Seq<char>, s2: Seq<char>)
    requires
        all_upper(s1),
        all_upper(s2),
        s1.len() >= 1,
        s2.len() >= 1,
        letters_val(s1) == letters_val(s2),
    ensures
        s1 == s2,
    decreases s1.len(),
{
    lemma_letters_val_len_window(s1);
    lemma_letters_val_len_window(s2);
    if s1.len() < s2.len() {
        lemma_letters_window_sep(s1.len() as int, s2.len() as int);
        assert(false);
    }
    if s2.len() < s1.len() {
        lemma_letters_window_sep(s2.len() as int, s1.len() as int);
        assert(false);
    }
    // Same length: peel the last letter.
    let p1 = s1.drop_last();
    let p2 = s2.drop_last();
    assert(all_upper(p1)) by {
        assert(forall|i: int| 0 <= i < s1.len() - 1 ==> is_upper(#[trigger] p1[i]) == is_upper(s1[i]));
    }
    assert(all_upper(p2)) by {
        assert(forall|i: int| 0 <= i < s2.len() - 1 ==> is_upper(#[trigger] p2[i]) == is_upper(s2[i]));
    }
    let d1 = letter_val(s1.last());
    let d2 = letter_val(s2.last());
    assert(is_upper(s1[s1.len() - 1]));
    assert(is_upper(s2[s2.len() - 1]));
    assert(26 * (letters_val(p1) - letters_val(p2)) == d2 - d1);
    assert(d1 == d2 && letters_val(p1) == letters_val(p2));
    lemma_char_eq_from_u32(s1.last(), s2.last());
    assert(s1.last() == s2.last());
    if s1.len() == 1 {
        assert(s1 =~= s2);
    } else {
        lemma_letters_val_injective(p1, p2);
        assert(s1 =~= p1.push(s1.last()));
        assert(s2 =~= p2.push(s2.last()));
    }
}

/// Two characters with the same code point are the same character.
proof fn lemma_char_eq_from_u32(c1: char, c2: char)
    requires
        c1 as u32 == c2 as u32,
    ensures
        c1 == c2,
{
}

/// The value of an all-letter run of length `n` lies in the window
/// `[letters_lo(n), letters_hi(n)]`.
spec fn letters_lo(n: int) -> int
    decreases n,
{
    if n <= 0 {
        0
    } else {
        letters_lo(n - 1) * 26 + 1
    }
}

spec fn letters_hi(n: int) -> int
    decreases n,
{
    if n <= 0 {
        0
    } else {
        letters_hi(n - 1) * 26 + 26
    }
}

proof fn lemma_letters_val_len_window(s: Seq<char>)
    requires
        all_upper(s),
    ensures
        letters_lo(s.len() as int) <= letters_val(s) <= letters_hi(s.len() as int),
    decreases s.len(),
{
    if s.len() > 0 {
        assert(all_upper(s.drop_last())) by {
            assert(forall|i: int|
                0 <= i < s.len() - 1 ==> is_upper(#[trigger] s.drop_last()[i]) == is_upper(s[i]));
        }
        lemma_letters_val_len_window(s.drop_last());
    }
}

/// Windows of different lengths do not overlap: a longer run always has
/// a strictly larger value.
proof fn lemma_letters_window_sep(m: int, n: int)
    requires
        0 <= m < n,
    ensures
        letters_hi(m) < letters_lo(n),
    decreases n,
{
    lemma_letters_hi_lo(m);
    if m + 1 < n {
        lemma_letters_window_sep(m, n - 1);
        lemma_letters_lo_mono(n - 1);
    }
}

proof fn lemma_letters_hi_lo(n: int)
    requires
        n >= 0,
    ensures
        letters_hi(n) <= 26 * letters_lo(n),
        letters_hi(n) < letters_lo(n + 1),
        letters_lo(n) >= 0,
    decreases n,
{
    if n > 0 {
        lemma_letters_hi_lo(n - 1);
    }
}

proof fn lemma_letters_lo_mono(n: int)
    requires
        n >= 0,
    ensures
        letters_lo(n) <= letters_lo(n + 1),
    decreases n,
{
    lemma_letters_hi_lo(n);
}

} // verus!
