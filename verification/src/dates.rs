//! Dates in file names (`20260819`, `2026-08-19`, `2026年8月19日`), as `YYYY-MM-DD`.
use vstd::prelude::*;
use crate::numbers::opt_view;
use crate::text::{chars_of, digit_char, is_ascii_digit, string_of};

verus! {

/// `y` is a leap year of the Gregorian calendar.
pub open spec fn leap_year(y: int) -> bool {
    (y % 4 == 0 && y % 100 != 0) || y % 400 == 0
}

/// Number of days of month `m` of year `y`.
pub open spec fn month_days(y: int, m: int) -> int {
    if m == 2 {
        if leap_year(y) { 29 } else { 28 }
    } else if m == 4 || m == 6 || m == 9 || m == 11 {
        30
    } else {
        31
    }
}

/// The last `w` decimal digits of `n`, zero-padded.
pub open spec fn padded(n: nat, w: nat) -> Seq<char>
    decreases w,
{
    if w == 0 { Seq::empty() } else { padded(n / 10, (w - 1) as nat).push(digit_char(n % 10)) }
}

/// `YYYY-MM-DD` of the date `y`-`m`-`d`, or `None` when there is no such date.
pub open spec fn date_text(y: int, m: int, d: int) -> Option<Seq<char>> {
    if 1 <= m <= 12 && 1 <= d <= month_days(y, m) {
        Some(padded(y as nat, 4) + "-"@ + padded(m as nat, 2) + "-"@ + padded(d as nat, 2))
    } else {
        None
    }
}

/// Calls `chrono::NaiveDate::from_ymd_opt` and formats the date with `%Y-%m-%d`. A date
/// exists for a month in 1..=12 and a day within that month (February has 29 days in
/// leap years of the proleptic Gregorian calendar); for a year in 0..=9999 the text is
/// the year in four digits and the month and day in two, zero-padded.
#[verifier::external_body]
fn format_valid_date(y: i32, m: u32, d: u32) -> (r: Option<String>)
    requires
        0 <= y <= 9999,
    ensures
        opt_view(r) == date_text(y as int, m as int, d as int),
{
    match chrono::NaiveDate::from_ymd_opt(y, m, d) {
        Some(dt) => Some(dt.format("%Y-%m-%d").to_string()),
        None => None,
    }
}

/// Value of a text of decimal digits.
pub open spec fn digits_value(s: Seq<char>) -> nat
    decreases s.len(),
{
    if s.len() == 0 { 0 } else { digits_value(s.drop_last()) * 10 + ((s.last() as int - '0' as int) as nat) }
}

/// All characters of `s` are ASCII digits.
pub open spec fn all_digits(s: Seq<char>) -> bool {
    forall|j: int| 0 <= j < s.len() ==> is_ascii_digit(#[trigger] s[j])
}

/// `s` starts with `19` or `20`.
pub open spec fn century_ok(s: Seq<char>) -> bool {
    s.len() >= 2 && ((s[0] == '1' && s[1] == '9') || (s[0] == '2' && s[1] == '0'))
}

/// A separator between the parts of a date.
pub open spec fn is_sep(c: char) -> bool {
    c == '-' || c == '_' || c == '.' || c == '/'
}

/// Year, month and day of eight digits `YYYYMMDD` at `i` (a year from 1900 to 2099).
pub open spec fn yyyymmdd_at(cs: Seq<char>, i: int) -> Option<(int, int, int)> {
    if i < 0 || i + 8 > cs.len() {
        None
    } else {
        let s = cs.subrange(i, i + 8);
        if !all_digits(s) || !century_ok(s) {
            None
        } else {
            Some((digits_value(s.subrange(0, 4)) as int, digits_value(s.subrange(4, 6)) as int, digits_value(s.subrange(6, 8)) as int))
        }
    }
}

/// The one or two digits at `k` of `r`.
pub open spec fn day_digits(r: Seq<char>, k: int) -> Seq<char> {
    if 0 <= k < r.len() && is_ascii_digit(r[k]) {
        if k + 1 < r.len() && is_ascii_digit(r[k + 1]) { r.subrange(k, k + 2) } else { r.subrange(k, k + 1) }
    } else {
        Seq::empty()
    }
}

/// Year, month and day of `YYYY-M-D` at `i` (month and day of one or two digits, any of
/// `-`, `_`, `.`, `/` between the parts, a year from 1900 to 2099, eight characters at
/// least from `i` on).
pub open spec fn ymd_at(cs: Seq<char>, i: int) -> Option<(int, int, int)> {
    if i < 0 || i + 8 > cs.len() {
        None
    } else {
        let r = cs.subrange(i, cs.len() as int);
        if !all_digits(r.subrange(0, 4)) || !century_ok(r) || !is_sep(r[4]) || !is_ascii_digit(r[5]) {
            None
        } else {
            let two = is_ascii_digit(r[6]);
            let ms = if two { r.subrange(5, 7) } else { r.subrange(5, 6) };
            let sep2 = if two { r[7] } else { r[6] };
            let dd = day_digits(r, if two { 8 } else { 7 });
            if !is_sep(sep2) || dd.len() == 0 {
                None
            } else {
                Some((digits_value(r.subrange(0, 4)) as int, digits_value(ms) as int, digits_value(dd) as int))
            }
        }
    }
}

/// The date text of parts, when they form a date.
pub open spec fn parts_text(p: Option<(int, int, int)>) -> Option<Seq<char>> {
    match p {
        Some((y, m, d)) => date_text(y, m, d),
        None => None,
    }
}

/// The date at `i`: a separated date first, else eight digits.
pub open spec fn date_at(cs: Seq<char>, i: int) -> Option<Seq<char>> {
    match parts_text(ymd_at(cs, i)) {
        Some(t) => Some(t),
        None => parts_text(yyyymmdd_at(cs, i)),
    }
}

/// The first date at `i` or after.
pub open spec fn date_from(cs: Seq<char>, i: int) -> Option<Seq<char>>
    decreases cs.len() - i,
{
    if i < 0 || i >= cs.len() {
        None
    } else {
        match date_at(cs, i) {
            Some(t) => Some(t),
            None => date_from(cs, i + 1),
        }
    }
}

/// `年`, `月` and `日` read as `-`.
pub open spec fn unify_marks(name: Seq<char>) -> Seq<char> {
    name.map_values(|c: char| if c == '年' || c == '月' || c == '日' { '-' } else { c })
}

/// The first date in a file name.
pub open spec fn name_date(name: Seq<char>) -> Option<Seq<char>> {
    date_from(unify_marks(name), 0)
}

/// Value of the digits `cs[lo..hi]`.
fn digits_at(cs: &Vec<char>, lo: usize, hi: usize) -> (r: u32)
    requires
        lo <= hi <= cs@.len(),
        hi - lo <= 4,
        all_digits(cs@.subrange(lo as int, hi as int)),
    ensures
        r == digits_value(cs@.subrange(lo as int, hi as int)),
        r < 10000,
{
    let mut v: u32 = 0;
    let mut k: usize = lo;
    assert(cs@.subrange(lo as int, lo as int) =~= Seq::<char>::empty());
    while k < hi
        invariant
            lo <= k <= hi <= cs@.len(),
            hi - lo <= 4,
            all_digits(cs@.subrange(lo as int, hi as int)),
            v == digits_value(cs@.subrange(lo as int, k as int)),
            v < pow10(k - lo),
            pow10(k - lo) == if k - lo == 0 { 1 } else if k - lo == 1 { 10 } else if k - lo == 2 { 100 } else if k - lo == 3 { 1000 } else { 10000int },
        decreases hi - k,
    {
        assert(cs@.subrange(lo as int, k + 1).drop_last() =~= cs@.subrange(lo as int, k as int));
        assert(cs@.subrange(lo as int, hi as int)[k - lo] == cs@[k as int]);
        let c = cs[k];
        let dv = (c as u32) - ('0' as u32);
        assert(pow10(k + 1 - lo) == pow10(k - lo) * 10);
        assert(v * 10 + dv < pow10(k + 1 - lo)) by (nonlinear_arith)
            requires
                v < pow10(k - lo),
                dv < 10,
                pow10(k + 1 - lo) == pow10(k - lo) * 10,
        ;
        v = v * 10 + dv;
        k += 1;
    }
    v
}

/// Powers of ten.
pub open spec fn pow10(n: int) -> int
    decreases n,
{
    if n <= 0 { 1 } else { 10 * pow10(n - 1) }
}

/// Whether `c` is an ASCII digit.
fn digit_char_at(c: char) -> (b: bool)
    ensures
        b == is_ascii_digit(c),
{
    '0' <= c && c <= '9'
}

/// Whether `c` separates the parts of a date.
fn sep_char(c: char) -> (b: bool)
    ensures
        b == is_sep(c),
{
    c == '-' || c == '_' || c == '.' || c == '/'
}

/// Whether `cs[lo..hi]` are all digits.
fn digits_only(cs: &Vec<char>, lo: usize, hi: usize) -> (b: bool)
    requires
        lo <= hi <= cs@.len(),
    ensures
        b == all_digits(cs@.subrange(lo as int, hi as int)),
{
    let mut k: usize = lo;
    while k < hi
        invariant
            lo <= k <= hi <= cs@.len(),
            forall|j: int| lo <= j < k ==> is_ascii_digit(#[trigger] cs@[j]),
        decreases hi - k,
    {
        if !digit_char_at(cs[k]) {
            assert(cs@.subrange(lo as int, hi as int)[k - lo] == cs@[k as int]);
            return false;
        }
        k += 1;
    }
    assert forall|j: int| 0 <= j < hi - lo implies is_ascii_digit(#[trigger] cs@.subrange(lo as int, hi as int)[j]) by {
        assert(cs@.subrange(lo as int, hi as int)[j] == cs@[lo + j]);
    }
    true
}

/// The date text of year `y`, month `m`, day `d` (see `date_text`).
fn date_of(y: u32, m: u32, d: u32) -> (r: Option<String>)
    requires
        1900 <= y <= 2099,
    ensures
        opt_view(r) == date_text(y as int, m as int, d as int),
{
    format_valid_date(y as i32, m, d)
}

/// The date of eight digits at `i` (see `yyyymmdd_at`).
fn try_yyyymmdd_at(cs: &Vec<char>, i: usize) -> (r: Option<String>)
    ensures
        opt_view(r) == parts_text(yyyymmdd_at(cs@, i as int)),
{
    if i > cs.len() || cs.len() - i < 8 {
        return None;
    }
    let ghost s = cs@.subrange(i as int, i + 8);
    if !digits_only(cs, i, i + 8) {
        return None;
    }
    if !((cs[i] == '1' && cs[i + 1] == '9') || (cs[i] == '2' && cs[i + 1] == '0')) {
        assert(s[0] == cs@[i as int] && s[1] == cs@[i + 1]);
        return None;
    }
    assert(s[0] == cs@[i as int] && s[1] == cs@[i + 1]);
    proof {
        lemma_digits_sub(cs@, i as int, i + 8, i as int, i + 4);
        lemma_digits_sub(cs@, i as int, i + 8, i + 4, i + 6);
        lemma_digits_sub(cs@, i as int, i + 8, i + 6, i + 8);
        assert(s.subrange(0, 4) =~= cs@.subrange(i as int, i + 4));
        assert(s.subrange(4, 6) =~= cs@.subrange(i + 4, i + 6));
        assert(s.subrange(6, 8) =~= cs@.subrange(i + 6, i + 8));
    }
    let y = digits_at(cs, i, i + 4);
    let m = digits_at(cs, i + 4, i + 6);
    let d = digits_at(cs, i + 6, i + 8);
    proof {
        lemma_century(cs@.subrange(i as int, i + 4));
        assert(cs@.subrange(i as int, i + 4)[0] == s[0] && cs@.subrange(i as int, i + 4)[1] == s[1]);
    }
    date_of(y, m, d)
}

/// A part of an all-digit range is all digits.
proof fn lemma_digits_sub(cs: Seq<char>, lo: int, hi: int, a: int, b: int)
    requires
        0 <= lo <= a <= b <= hi <= cs.len(),
        all_digits(cs.subrange(lo, hi)),
    ensures
        all_digits(cs.subrange(a, b)),
{
    assert forall|j: int| 0 <= j < b - a implies is_ascii_digit(#[trigger] cs.subrange(a, b)[j]) by {
        assert(cs.subrange(a, b)[j] == cs.subrange(lo, hi)[a - lo + j]);
    }
}

/// Four digits starting with `19` or `20` are a year from 1900 to 2099.
proof fn lemma_century(s: Seq<char>)
    requires
        s.len() == 4,
        all_digits(s),
        (s[0] == '1' && s[1] == '9') || (s[0] == '2' && s[1] == '0'),
    ensures
        1900 <= digits_value(s) <= 2099,
{
    reveal_with_fuel(digits_value, 5);
    assert(s.drop_last().drop_last().drop_last().drop_last() =~= Seq::<char>::empty());
    assert(s.drop_last().drop_last().drop_last() =~= seq![s[0]]);
    assert(s.drop_last().drop_last() =~= seq![s[0], s[1]]);
    assert(s.drop_last() =~= seq![s[0], s[1], s[2]]);
    assert(is_ascii_digit(s[2]) && is_ascii_digit(s[3]));
}

/// `cs[lo..hi]` are digits when each of them is.
proof fn lemma_all_digits(cs: Seq<char>, lo: int, hi: int)
    requires
        0 <= lo <= hi <= cs.len(),
        forall|j: int| lo <= j < hi ==> is_ascii_digit(#[trigger] cs[j]),
    ensures
        all_digits(cs.subrange(lo, hi)),
{
    assert forall|j: int| 0 <= j < hi - lo implies is_ascii_digit(#[trigger] cs.subrange(lo, hi)[j]) by {
        assert(cs.subrange(lo, hi)[j] == cs[lo + j]);
    }
}

/// The date of `YYYY-M-D` at `i` (see `ymd_at`).
fn try_ymd_at(cs: &Vec<char>, i: usize) -> (r: Option<String>)
    ensures
        opt_view(r) == parts_text(ymd_at(cs@, i as int)),
{
    if i > cs.len() || cs.len() - i < 8 {
        return None;
    }
    let ghost r = cs@.subrange(i as int, cs@.len() as int);
    assert(forall|j: int| 0 <= j < r.len() ==> #[trigger] r[j] == cs@[i + j]);
    assert(r.subrange(0, 4) =~= cs@.subrange(i as int, i + 4));
    if !digits_only(cs, i, i + 4) {
        return None;
    }
    if !((cs[i] == '1' && cs[i + 1] == '9') || (cs[i] == '2' && cs[i + 1] == '0')) {
        assert(r[0] == cs@[i as int] && r[1] == cs@[i + 1]);
        return None;
    }
    assert(r[0] == cs@[i as int] && r[1] == cs@[i + 1]);
    assert(r[4] == cs@[i + 4] && r[5] == cs@[i + 5] && r[6] == cs@[i + 6] && r[7] == cs@[i + 7]);
    if !sep_char(cs[i + 4]) {
        return None;
    }
    if !digit_char_at(cs[i + 5]) {
        return None;
    }
    let two = digit_char_at(cs[i + 6]);
    let m_end: usize = if two { i + 7 } else { i + 6 };
    let sep2 = if two { cs[i + 7] } else { cs[i + 6] };
    let ds: usize = if two { i + 8 } else { i + 7 };
    if !sep_char(sep2) {
        return None;
    }
    let d_end: usize = if ds < cs.len() && digit_char_at(cs[ds]) {
        if ds + 1 < cs.len() && digit_char_at(cs[ds + 1]) { ds + 2 } else { ds + 1 }
    } else {
        ds
    };
    proof {
        let k = ds - i;
        if k < r.len() {
            assert(r[k] == cs@[ds as int]);
        }
        if k + 1 < r.len() {
            assert(r[k + 1] == cs@[ds + 1]);
        }
        assert(day_digits(r, k) =~= cs@.subrange(ds as int, d_end as int));
    }
    if d_end == ds {
        return None;
    }
    proof {
        lemma_all_digits(cs@, i + 5, m_end as int);
        lemma_all_digits(cs@, ds as int, d_end as int);
        assert(r.subrange(5, m_end - i) =~= cs@.subrange(i + 5, m_end as int));
        lemma_century(cs@.subrange(i as int, i + 4));
        assert(cs@.subrange(i as int, i + 4)[0] == r[0] && cs@.subrange(i as int, i + 4)[1] == r[1]);
    }
    let y = digits_at(cs, i, i + 4);
    let m = digits_at(cs, i + 5, m_end);
    let d = digits_at(cs, ds, d_end);
    date_of(y, m, d)
}

/// `name` with `年`, `月` and `日` read as `-`.
fn unified(name: &str) -> (r: Vec<char>)
    ensures
        r@ == unify_marks(name@),
{
    let v = chars_of(name);
    let mut r: Vec<char> = Vec::new();
    let mut i: usize = 0;
    while i < v.len()
        invariant
            i <= v@.len(),
            v@ == name@,
            r@ == unify_marks(name@).take(i as int),
        decreases v@.len() - i,
    {
        let c = v[i];
        let x = if c == '年' || c == '月' || c == '日' { '-' } else { c };
        r.push(x);
        assert(r@ =~= unify_marks(name@).take(i + 1));
        i += 1;
    }
    r
}

/// The first date in a file name: `YYYY-M-D` (or `YYYY年M月D日`, with any of `-`, `_`,
/// `.`, `/` between the parts) or `YYYYMMDD`, a valid date with a year from 1900 to
/// 2099, as `YYYY-MM-DD`.
pub fn extract_date_from_name(name: &str) -> (r: Option<String>)
    ensures
        opt_view(r) == name_date(name@),
{
    let cs = unified(name);
    let mut i: usize = 0;
    while i < cs.len()
        invariant
            i <= cs@.len(),
            cs@ == unify_marks(name@),
            date_from(cs@, 0) == date_from(cs@, i as int),
        decreases cs@.len() - i,
    {
        match try_ymd_at(&cs, i) {
            Some(d) => return Some(d),
            None => {},
        }
        match try_yyyymmdd_at(&cs, i) {
            Some(d) => return Some(d),
            None => {},
        }
        i += 1;
    }
    None
}

/// The date of a source file: the date in its name (see `extract_date_from_name`), else
/// `modified` (the day the file was last modified, as `YYYY-MM-DD` in local time), else
/// empty text.
pub fn parse_source_date(name: &str, modified: Option<String>) -> (r: String)
    ensures
        r@ == match name_date(name@) {
            Some(d) => d,
            None => match modified {
                Some(t) => t@,
                None => Seq::<char>::empty(),
            },
        },
{
    match extract_date_from_name(name) {
        Some(d) => d,
        None => match modified {
            Some(t) => t,
            None => String::new(),
        },
    }
}

} // verus!
