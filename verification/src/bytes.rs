//! Byte-level text primitives.
//!
//! The parser works on raw bytes: the recognized syntax is pure ASCII, so
//! UTF-8 continuation bytes never match a structural byte. This module holds
//! the spec-level vocabulary (whitespace classes, trimming, substring
//! matching, digit runs) and the verified executable scanners for it.

use vstd::prelude::*;

verus! {

/// Space or horizontal tab: the bytes that make a line blank.
pub open spec fn is_blank_byte(b: u8) -> bool {
    b == 32 || b == 9
}

/// ASCII whitespace as trimming removes it: tab, LF, VT, FF, CR, space.
pub open spec fn is_ws_byte(b: u8) -> bool {
    b == 32 || (9 <= b && b <= 13)
}

/// Every byte of `s` is a space or tab.
pub open spec fn seq_blank(s: Seq<u8>) -> bool {
    forall|i: int| 0 <= i < s.len() ==> is_blank_byte(#[trigger] s[i])
}

/// ASCII decimal digit.
pub open spec fn is_digit(b: u8) -> bool {
    48 <= b && b <= 57
}

/// The word `w` occurs in `s` starting at position `i`.
pub open spec fn matches_at(s: Seq<u8>, i: int, w: Seq<u8>) -> bool {
    &&& 0 <= i
    &&& i + w.len() <= s.len()
    &&& forall|k: int| 0 <= k < w.len() ==> s[i + k] == #[trigger] w[k]
}

/// First position in `[i, end)` holding a byte other than ASCII whitespace,
/// or `end` if there is none.
pub open spec fn scan_ws(s: Seq<u8>, i: int, end: int) -> int
    decreases end - i,
{
    if 0 <= i && i < end && end <= s.len() && is_ws_byte(s[i]) {
        scan_ws(s, i + 1, end)
    } else {
        i
    }
}

/// Position just after the last non-whitespace byte in `[start, j)`,
/// or `start` if all of the range is whitespace.
pub open spec fn rscan_ws(s: Seq<u8>, start: int, j: int) -> int
    decreases j - start,
{
    if 0 <= start && start < j && j <= s.len() && is_ws_byte(s[j - 1]) {
        rscan_ws(s, start, j - 1)
    } else {
        j
    }
}

/// Start of the trimmed portion of `s[from..to]`.
pub open spec fn trim_lo(s: Seq<u8>, from: int, to: int) -> int {
    scan_ws(s, from, to)
}

/// End of the trimmed portion of `s[from..to]`.
pub open spec fn trim_hi(s: Seq<u8>, from: int, to: int) -> int {
    rscan_ws(s, trim_lo(s, from, to), to)
}

/// `s[from..to]` with leading and trailing ASCII whitespace removed.
pub open spec fn trim_range(s: Seq<u8>, from: int, to: int) -> Seq<u8> {
    s.subrange(trim_lo(s, from, to), trim_hi(s, from, to))
}

/// `s` with leading and trailing ASCII whitespace removed.
pub open spec fn trim_of(s: Seq<u8>) -> Seq<u8> {
    trim_range(s, 0, s.len() as int)
}

/// First position in `[i, end)` holding byte `b`, or `end` if none does.
pub open spec fn find_byte_spec(s: Seq<u8>, i: int, end: int, b: u8) -> int
    decreases end - i,
{
    if 0 <= i && i < end && end <= s.len() && s[i] != b {
        find_byte_spec(s, i + 1, end, b)
    } else {
        i
    }
}

/// First position past the digit run beginning at `i` within `[i, end)`.
pub open spec fn scan_digits(s: Seq<u8>, i: int, end: int) -> int
    decreases end - i,
{
    if 0 <= i && i < end && end <= s.len() && is_digit(s[i]) {
        scan_digits(s, i + 1, end)
    } else {
        i
    }
}

/// Value of the digit string `s[from..to]` read in base ten.
pub open spec fn digits_val(s: Seq<u8>, from: int, to: int) -> int
    decreases to - from,
{
    if to <= from {
        0
    } else {
        digits_val(s, from, to - 1) * 10 + (s[to - 1] - 48)
    }
}

/// `s[from..to]` is a non-empty run of digits.
pub open spec fn all_digits(s: Seq<u8>, from: int, to: int) -> bool {
    from < to && forall|i: int| from <= i < to ==> is_digit(#[trigger] s[i])
}

pub proof fn lemma_scan_ws_bounds(s: Seq<u8>, i: int, end: int)
    requires
        0 <= i <= end <= s.len(),
    ensures
        i <= scan_ws(s, i, end) <= end,
        forall|j: int| i <= j < scan_ws(s, i, end) ==> is_ws_byte(#[trigger] s[j]),
        scan_ws(s, i, end) < end ==> !is_ws_byte(s[scan_ws(s, i, end)]),
    decreases end - i,
{
    if i < end && is_ws_byte(s[i]) {
        lemma_scan_ws_bounds(s, i + 1, end);
    }
}

pub proof fn lemma_rscan_ws_bounds(s: Seq<u8>, start: int, j: int)
    requires
        0 <= start <= j <= s.len(),
    ensures
        start <= rscan_ws(s, start, j) <= j,
        forall|k: int| rscan_ws(s, start, j) <= k < j ==> is_ws_byte(#[trigger] s[k]),
        rscan_ws(s, start, j) > start ==> !is_ws_byte(s[rscan_ws(s, start, j) - 1]),
    decreases j - start,
{
    if start < j && is_ws_byte(s[j - 1]) {
        lemma_rscan_ws_bounds(s, start, j - 1);
    }
}

pub proof fn lemma_trim_bounds(s: Seq<u8>, from: int, to: int)
    requires
        0 <= from <= to <= s.len(),
    ensures
        from <= trim_lo(s, from, to) <= trim_hi(s, from, to) <= to,
{
    lemma_scan_ws_bounds(s, from, to);
    lemma_rscan_ws_bounds(s, trim_lo(s, from, to), to);
}

pub proof fn lemma_find_byte_bounds(s: Seq<u8>, i: int, end: int, b: u8)
    requires
        0 <= i <= end <= s.len(),
    ensures
        i <= find_byte_spec(s, i, end, b) <= end,
        forall|j: int| i <= j < find_byte_spec(s, i, end, b) ==> #[trigger] s[j] != b,
        find_byte_spec(s, i, end, b) < end ==> s[find_byte_spec(s, i, end, b)] == b,
    decreases end - i,
{
    if i < end && s[i] != b {
        lemma_find_byte_bounds(s, i + 1, end, b);
    }
}

pub proof fn lemma_scan_digits_bounds(s: Seq<u8>, i: int, end: int)
    requires
        0 <= i <= end <= s.len(),
    ensures
        i <= scan_digits(s, i, end) <= end,
        forall|j: int| i <= j < scan_digits(s, i, end) ==> is_digit(#[trigger] s[j]),
        scan_digits(s, i, end) < end ==> !is_digit(s[scan_digits(s, i, end)]),
    decreases end - i,
{
    if i < end && is_digit(s[i]) {
        lemma_scan_digits_bounds(s, i + 1, end);
    }
}

/// A digit string's value is non-negative, and extending it on the right
/// cannot make it smaller.
pub proof fn lemma_digits_val_mono(s: Seq<u8>, from: int, k: int, to: int)
    requires
        from <= k <= to,
        forall|i: int| from <= i < to ==> is_digit(#[trigger] s[i]),
    ensures
        0 <= digits_val(s, from, k) <= digits_val(s, from, to),
    decreases to - from + (to - k),
{
    if k == to {
        if to <= from {
        } else {
            lemma_digits_val_mono(s, from, to - 1, to - 1);
        }
    } else {
        lemma_digits_val_mono(s, from, k, to - 1);
        lemma_digits_val_mono(s, from, to - 1, to - 1);
    }
}

/// Executable test for [`is_ws_byte`].
pub fn ws_byte(b: u8) -> (r: bool)
    ensures
        r == is_ws_byte(b),
{
    b == 32 || (9 <= b && b <= 13)
}

/// Executable test for [`is_blank_byte`].
pub fn blank_byte(b: u8) -> (r: bool)
    ensures
        r == is_blank_byte(b),
{
    b == 32 || b == 9
}

/// Executable test for [`is_digit`].
pub fn digit_byte(b: u8) -> (r: bool)
    ensures
        r == is_digit(b),
{
    48 <= b && b <= 57
}

/// First position at or after `from` (within `[from, to)`) that is not
/// ASCII whitespace.
pub fn first_non_ws(v: &[u8], from: usize, to: usize) -> (r: usize)
    requires
        from <= to <= v@.len(),
    ensures
        r == scan_ws(v@, from as int, to as int),
        from <= r <= to,
{
    proof {
        lemma_scan_ws_bounds(v@, from as int, to as int);
    }
    let mut i: usize = from;
    while i < to && ws_byte(v[i])
        invariant
            from <= i <= to <= v@.len(),
            scan_ws(v@, from as int, to as int) == scan_ws(v@, i as int, to as int),
        decreases to - i,
    {
        i += 1;
    }
    i
}

/// Position just after the last non-whitespace byte in `[start, j)`.
pub fn last_non_ws(v: &[u8], start: usize, j: usize) -> (r: usize)
    requires
        start <= j <= v@.len(),
    ensures
        r == rscan_ws(v@, start as int, j as int),
        start <= r <= j,
{
    proof {
        lemma_rscan_ws_bounds(v@, start as int, j as int);
    }
    let mut k: usize = j;
    while k > start && ws_byte(v[k - 1])
        invariant
            start <= k <= j <= v@.len(),
            rscan_ws(v@, start as int, j as int) == rscan_ws(v@, start as int, k as int),
        decreases k,
    {
        k -= 1;
    }
    k
}

/// Bounds of the trimmed portion of `v[from..to]`.
pub fn trim_bounds(v: &[u8], from: usize, to: usize) -> (r: (usize, usize))
    requires
        from <= to <= v@.len(),
    ensures
        r.0 == trim_lo(v@, from as int, to as int),
        r.1 == trim_hi(v@, from as int, to as int),
        from <= r.0 <= r.1 <= to,
        v@.subrange(r.0 as int, r.1 as int) == trim_range(v@, from as int, to as int),
{
    let lo = first_non_ws(v, from, to);
    let hi = last_non_ws(v, lo, to);
    (lo, hi)
}

/// Whether `v[i..j]` equals the word `w`, byte for byte.
pub fn range_eq(v: &[u8], i: usize, j: usize, w: &[u8]) -> (r: bool)
    requires
        i <= j <= v@.len(),
    ensures
        r == (j - i == w@.len() && matches_at(v@, i as int, w@)),
{
    if j - i != w.len() {
        return false;
    }
    let mut k: usize = 0;
    while k < w.len()
        invariant
            i <= j <= v@.len(),
            j - i == w@.len(),
            0 <= k <= w@.len(),
            forall|m: int| 0 <= m < k ==> v@[i + m] == #[trigger] w@[m],
        decreases w@.len() - k,
    {
        if v[i + k] != w[k] {
            return false;
        }
        k += 1;
    }
    true
}

/// Whether the word `w` occurs in `v` starting exactly at `i`, entirely
/// within `v[i..j]`.
pub fn starts_with_at(v: &[u8], i: usize, j: usize, w: &[u8]) -> (r: bool)
    requires
        i <= j <= v@.len(),
    ensures
        r == (i + w@.len() <= j && matches_at(v@, i as int, w@)),
{
    if w.len() > j - i {
        return false;
    }
    range_eq(v, i, i + w.len(), w)
}

/// First position of byte `b` in `v[from..to]`, if any.
pub fn find_byte_in(v: &[u8], from: usize, to: usize, b: u8) -> (r: Option<usize>)
    requires
        from <= to <= v@.len(),
    ensures
        match r {
            Some(p) => from <= p < to && v@[p as int] == b && p == find_byte_spec(
                v@,
                from as int,
                to as int,
                b,
            ),
            None => find_byte_spec(v@, from as int, to as int, b) == to,
        },
{
    proof {
        lemma_find_byte_bounds(v@, from as int, to as int, b);
    }
    let mut i: usize = from;
    while i < to && v[i] != b
        invariant
            from <= i <= to <= v@.len(),
            find_byte_spec(v@, from as int, to as int, b) == find_byte_spec(
                v@,
                i as int,
                to as int,
                b,
            ),
        decreases to - i,
    {
        i += 1;
    }
    if i < to {
        Some(i)
    } else {
        None
    }
}

/// First position in `[from, to]` at which the word `w` occurs in `v`
/// (the match must fit inside `v[from..to]`).
pub fn find_sub(v: &[u8], from: usize, to: usize, w: &[u8]) -> (r: Option<usize>)
    requires
        from <= to <= v@.len(),
    ensures
        match r {
            Some(p) => {
                &&& from <= p
                &&& p + w@.len() <= to
                &&& matches_at(v@, p as int, w@)
                &&& forall|q: int|
                    from <= q < p ==> !(q + w@.len() <= to && matches_at(v@, q, w@))
            },
            None => forall|q: int|
                from <= q ==> !(q + w@.len() <= to && matches_at(v@, q, w@)),
        },
{
    if w.len() > to - from {
        return None;
    }
    let last = to - w.len();
    let mut p: usize = from;
    while p <= last
        invariant
            from <= p <= last + 1,
            last + w@.len() == to <= v@.len(),
            forall|q: int| from <= q < p ==> !(q + w@.len() <= to && matches_at(v@, q, w@)),
        decreases last + 1 - p,
    {
        if range_eq(v, p, p + w.len(), w) {
            return Some(p);
        }
        p += 1;
    }
    None
}

/// Whether the word `w` occurs anywhere inside `v[from..to]`.
pub fn contains_sub(v: &[u8], from: usize, to: usize, w: &[u8]) -> (r: bool)
    requires
        from <= to <= v@.len(),
    ensures
        r == exists|q: int| from <= q && q + w@.len() <= to && matches_at(v@, q, w@),
{
    let r = find_sub(v, from, to, w);
    match r {
        Some(p) => {
            proof {
                assert(from <= p as int && p as int + w@.len() <= to && matches_at(
                    v@,
                    p as int,
                    w@,
                ));
            }
            true
        },
        None => false,
    }
}

/// Copy `v[i..j]` into a fresh vector.
pub fn copy_range(v: &[u8], i: usize, j: usize) -> (out: Vec<u8>)
    requires
        i <= j <= v@.len(),
    ensures
        out@ == v@.subrange(i as int, j as int),
{
    let s = vstd::slice::slice_subrange(v, i, j);
    vstd::slice::slice_to_vec(s)
}

/// Parse `v[from..to]` as an unsigned decimal number.
///
/// Returns the value exactly when the range is a non-empty digit run whose
/// value fits in a `u64`.
pub fn parse_u64_range(v: &[u8], from: usize, to: usize) -> (r: Option<u64>)
    requires
        from <= to <= v@.len(),
    ensures
        match r {
            Some(n) => all_digits(v@, from as int, to as int) && n == digits_val(
                v@,
                from as int,
                to as int,
            ),
            None => !(all_digits(v@, from as int, to as int) && digits_val(
                v@,
                from as int,
                to as int,
            ) <= u64::MAX),
        },
{
    if from == to {
        return None;
    }
    let mut acc: u64 = 0;
    let mut i: usize = from;
    while i < to
        invariant
            from <= i <= to <= v@.len(),
            from < to,
            acc == digits_val(v@, from as int, i as int),
            forall|j: int| from <= j < i ==> is_digit(#[trigger] v@[j]),
        decreases to - i,
    {
        let b = v[i];
        if !(48 <= b && b <= 57) {
            return None;
        }
        let d: u64 = (b - 48) as u64;
        if acc > (u64::MAX - d) / 10 {
            proof {
                lemma_digits_val_mono(v@, from as int, i as int, i as int);
                assert(digits_val(v@, from as int, i + 1 as int) == acc * 10 + d);
                assert(acc * 10 + d > u64::MAX) by (nonlinear_arith)
                    requires
                        acc > (u64::MAX - d) / 10,
                        0 <= d <= 9,
                ;
                if all_digits(v@, from as int, to as int) {
                    lemma_digits_val_mono(v@, from as int, i + 1, to as int);
                }
            }
            return None;
        }
        proof {
            assert(acc * 10 + d <= u64::MAX) by (nonlinear_arith)
                requires
                    acc <= (u64::MAX - d) / 10,
                    0 <= d <= 9,
            ;
        }
        acc = acc * 10 + d;
        i += 1;
    }
    Some(acc)
}

/// Position after an optional leading sign (`+` or `-`).
pub open spec fn sign_skip(s: Seq<u8>, from: int, to: int) -> int {
    if from < to && (s[from] == 43 || s[from] == 45) {
        from + 1
    } else {
        from
    }
}

/// `s[from..to]` is a decimal integer literal whose value fits in an `i64`:
/// an optional sign followed by a non-empty digit run within range.
pub open spec fn is_i64_lit(s: Seq<u8>, from: int, to: int) -> bool {
    let b = sign_skip(s, from, to);
    let neg = from < to && s[from] == 45;
    all_digits(s, b, to) && digits_val(s, b, to) <= if neg {
        0x8000000000000000int
    } else {
        0x7fffffffffffffffint
    }
}

/// Value of the integer literal `s[from..to]`.
pub open spec fn i64_lit_val(s: Seq<u8>, from: int, to: int) -> int {
    let b = sign_skip(s, from, to);
    let neg = from < to && s[from] == 45;
    if neg {
        -digits_val(s, b, to)
    } else {
        digits_val(s, b, to)
    }
}

/// The exponent suffix of a float literal: `e` or `E`, an optional sign,
/// and a non-empty digit run reaching `to`.
pub open spec fn float_exp_ok(s: Seq<u8>, q: int, to: int) -> bool {
    &&& q < to
    &&& (s[q] == 101 || s[q] == 69)
    &&& {
        let x = sign_skip(s, q + 1, to);
        x < to && scan_digits(s, x, to) == to
    }
}

/// `s[from..to]` is a decimal float literal containing a point: an optional
/// sign, digits with exactly one `.` among them (at least one digit in the
/// mantissa), and an optional exponent suffix.
pub open spec fn is_float_lit(s: Seq<u8>, from: int, to: int) -> bool {
    let a = sign_skip(s, from, to);
    let p = scan_digits(s, a, to);
    &&& p < to
    &&& s[p] == 46
    &&& {
        let q = scan_digits(s, p + 1, to);
        &&& (p > a || q > p + 1)
        &&& (q == to || float_exp_ok(s, q, to))
    }
}

/// First position past the digit run beginning at `from` within `[from, to)`.
pub fn digits_end(v: &[u8], from: usize, to: usize) -> (r: usize)
    requires
        from <= to <= v@.len(),
    ensures
        r == scan_digits(v@, from as int, to as int),
        from <= r <= to,
{
    proof {
        lemma_scan_digits_bounds(v@, from as int, to as int);
    }
    let mut i: usize = from;
    while i < to && digit_byte(v[i])
        invariant
            from <= i <= to <= v@.len(),
            scan_digits(v@, from as int, to as int) == scan_digits(v@, i as int, to as int),
        decreases to - i,
    {
        i += 1;
    }
    i
}

/// Parse `s[from..to]` as a signed decimal number.
///
/// Returns the value exactly when the range is an `i64` literal.
pub fn parse_i64_range(v: &[u8], from: usize, to: usize) -> (r: Option<i64>)
    requires
        from <= to <= v@.len(),
    ensures
        match r {
            Some(n) => is_i64_lit(v@, from as int, to as int) && n == i64_lit_val(
                v@,
                from as int,
                to as int,
            ),
            None => !is_i64_lit(v@, from as int, to as int),
        },
{
    let mut body: usize = from;
    let mut neg: bool = false;
    if from < to && (v[from] == 43 || v[from] == 45) {
        body = from + 1;
        neg = v[from] == 45;
    }
    match parse_u64_range(v, body, to) {
        None => None,
        Some(m) => {
            if neg {
                if m > 0x8000000000000000u64 {
                    None
                } else if m == 0x8000000000000000u64 {
                    Some(i64::MIN)
                } else {
                    Some(-(m as i64))
                }
            } else {
                if m > 0x7fffffffffffffffu64 {
                    None
                } else {
                    Some(m as i64)
                }
            }
        },
    }
}

/// Whether `s[from..to]` is a float literal with a decimal point.
pub fn is_float_range(v: &[u8], from: usize, to: usize) -> (r: bool)
    requires
        from <= to <= v@.len(),
    ensures
        r == is_float_lit(v@, from as int, to as int),
{
    let mut a: usize = from;
    if from < to && (v[from] == 43 || v[from] == 45) {
        a = from + 1;
    }
    let p = digits_end(v, a, to);
    if !(p < to && v[p] == 46) {
        return false;
    }
    let q = digits_end(v, p + 1, to);
    if !(p > a || q > p + 1) {
        return false;
    }
    if q == to {
        return true;
    }
    if !(v[q] == 101 || v[q] == 69) {
        return false;
    }
    let mut x: usize = q + 1;
    if q + 1 < to && (v[q + 1] == 43 || v[q + 1] == 45) {
        x = q + 2;
    }
    if !(x < to) {
        return false;
    }
    let e = digits_end(v, x, to);
    e == to
}

/// First position in `[i, end)` holding an ASCII whitespace byte, or `end`.
pub open spec fn scan_to_ws(s: Seq<u8>, i: int, end: int) -> int
    decreases end - i,
{
    if 0 <= i && i < end && end <= s.len() && !is_ws_byte(s[i]) {
        scan_to_ws(s, i + 1, end)
    } else {
        i
    }
}

pub proof fn lemma_scan_to_ws_bounds(s: Seq<u8>, i: int, end: int)
    requires
        0 <= i <= end <= s.len(),
    ensures
        i <= scan_to_ws(s, i, end) <= end,
        forall|j: int| i <= j < scan_to_ws(s, i, end) ==> !is_ws_byte(#[trigger] s[j]),
        scan_to_ws(s, i, end) < end ==> is_ws_byte(s[scan_to_ws(s, i, end)]),
    decreases end - i,
{
    if i < end && !is_ws_byte(s[i]) {
        lemma_scan_to_ws_bounds(s, i + 1, end);
    }
}

/// First position at or after `from` (within `[from, to)`) that is ASCII
/// whitespace.
pub fn first_ws(v: &[u8], from: usize, to: usize) -> (r: usize)
    requires
        from <= to <= v@.len(),
    ensures
        r == scan_to_ws(v@, from as int, to as int),
        from <= r <= to,
{
    proof {
        lemma_scan_to_ws_bounds(v@, from as int, to as int);
    }
    let mut i: usize = from;
    while i < to && !ws_byte(v[i])
        invariant
            from <= i <= to <= v@.len(),
            scan_to_ws(v@, from as int, to as int) == scan_to_ws(v@, i as int, to as int),
        decreases to - i,
    {
        i += 1;
    }
    i
}

/// Every byte of `s` is a space, a tab, a line feed, or a carriage return
/// that directly precedes a line feed.
pub open spec fn ws_only(s: Seq<u8>) -> bool {
    forall|i: int|
        0 <= i < s.len() ==> (#[trigger] s[i] == 32 || s[i] == 9 || s[i] == 10 || (s[i] == 13 && i
            + 1 < s.len() && s[i + 1] == 10))
}

/// Whether `v[i..j]` equals the word `w`, stated as sequence equality.
pub fn range_is(v: &[u8], i: usize, j: usize, w: &[u8]) -> (r: bool)
    requires
        i <= j <= v@.len(),
    ensures
        r == (v@.subrange(i as int, j as int) == w@),
{
    let eq = range_eq(v, i, j, w);
    proof {
        if eq {
            assert(v@.subrange(i as int, j as int) =~= w@);
        } else {
            if v@.subrange(i as int, j as int) == w@ {
                assert(j - i == w@.len());
                assert(matches_at(v@, i as int, w@)) by {
                    assert forall|k: int| 0 <= k < w@.len() implies v@[i + k] == #[trigger] w@[k]
                        by {
                        assert(v@.subrange(i as int, j as int)[k] == v@[i + k]);
                    }
                };
                assert(false);
            }
        }
    }
    eq
}

/// First position in `[i, end)` whose byte differs from `b`: the end of the
/// run of `b` starting at `i`.
pub open spec fn scan_run(s: Seq<u8>, i: int, end: int, b: u8) -> int
    decreases end - i,
{
    if 0 <= i && i < end && end <= s.len() && s[i] == b {
        scan_run(s, i + 1, end, b)
    } else {
        i
    }
}

pub proof fn lemma_scan_run_bounds(s: Seq<u8>, i: int, end: int, b: u8)
    requires
        0 <= i <= end <= s.len(),
    ensures
        i <= scan_run(s, i, end, b) <= end,
        forall|j: int| i <= j < scan_run(s, i, end, b) ==> #[trigger] s[j] == b,
        scan_run(s, i, end, b) < end ==> s[scan_run(s, i, end, b)] != b,
    decreases end - i,
{
    if i < end && s[i] == b {
        lemma_scan_run_bounds(s, i + 1, end, b);
    }
}

/// End of the run of byte `b` beginning at `from` within `[from, to)`.
pub fn run_end(v: &[u8], from: usize, to: usize, b: u8) -> (r: usize)
    requires
        from <= to <= v@.len(),
    ensures
        r == scan_run(v@, from as int, to as int, b),
        from <= r <= to,
{
    proof {
        lemma_scan_run_bounds(v@, from as int, to as int, b);
    }
    let mut i: usize = from;
    while i < to && v[i] == b
        invariant
            from <= i <= to <= v@.len(),
            scan_run(v@, from as int, to as int, b) == scan_run(v@, i as int, to as int, b),
        decreases to - i,
    {
        i += 1;
    }
    i
}

/// First position at or after `i` where the word `w` occurs in `t` (the
/// match fitting inside `t`), or the length of `t` when it does not occur.
pub open spec fn find_word(t: Seq<u8>, i: int, w: Seq<u8>) -> int
    decreases t.len() - i,
    when 0 <= i
{
    if i + w.len() <= t.len() {
        if matches_at(t, i, w) {
            i
        } else {
            find_word(t, i + 1, w)
        }
    } else {
        t.len() as int
    }
}

pub proof fn lemma_find_word_props(t: Seq<u8>, i: int, w: Seq<u8>)
    requires
        0 <= i <= t.len(),
    ensures
        find_word(t, i, w) == t.len() || (i <= find_word(t, i, w) && matches_at(
            t,
            find_word(t, i, w),
            w,
        )),
        forall|q: int| i <= q < find_word(t, i, w) ==> !(#[trigger] matches_at(t, q, w)),
    decreases t.len() - i,
{
    if i + w.len() <= t.len() && !matches_at(t, i, w) {
        lemma_find_word_props(t, i + 1, w);
    }
}

} // verus!
