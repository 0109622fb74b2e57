use vstd::prelude::*;

verus! {

// A document's `date` field must hold either an RFC-3339 timestamp
// ("2021-06-22T12:48:16-04:00", optionally with a fractional-second part and
// with "Z" accepted for a zero offset) or the fallback pattern
// "YYYY-MM-DDThh:mm:ss±hhmm" with no colon in the offset.  Both denote a UTC
// instant, which this module represents as a count of seconds since
// 1970-01-01T00:00:00Z.  A leap second (":60") is read as the last instant
// of its minute.  Files whose dates fit neither form are rejected.

/// Latest instant this module can render: 9999-12-31T23:59:59Z.
pub const MAX_EPOCH: i64 = 253402300799;

/// The instants whose nanosecond count fits a signed 64-bit word; the index
/// engine keeps dates at that precision, so only these can be stored.
pub const MIN_STORED_EPOCH: i64 = -9223372036;

pub const MAX_STORED_EPOCH: i64 = 9223372036;

pub open spec fn spec_is_digit(c: char) -> bool {
    '0' <= c && c <= '9'
}

pub open spec fn digit_val(c: char) -> int {
    c as int - '0' as int
}

/// Numeric value of the two digits at positions `i`, `i + 1`.
pub open spec fn num2(s: Seq<char>, i: int) -> int {
    digit_val(s[i]) * 10 + digit_val(s[i + 1])
}

/// Numeric value of the four digits at positions `i` .. `i + 3`.
pub open spec fn num4(s: Seq<char>, i: int) -> int {
    digit_val(s[i]) * 1000 + digit_val(s[i + 1]) * 100 + digit_val(s[i + 2]) * 10 + digit_val(
        s[i + 3],
    )
}

pub open spec fn all_digits(s: Seq<char>, start: int, n: int) -> bool {
    forall|k: int| start <= k < start + n ==> spec_is_digit(#[trigger] s[k])
}

pub open spec fn spec_is_leap(y: int) -> bool {
    y % 4 == 0 && (y % 100 != 0 || y % 400 == 0)
}

pub open spec fn spec_days_in_month(y: int, m: int) -> int {
    if m == 2 {
        if spec_is_leap(y) {
            29
        } else {
            28
        }
    } else if m == 4 || m == 6 || m == 9 || m == 11 {
        30
    } else {
        31
    }
}

pub open spec fn valid_civil(y: int, m: int, d: int) -> bool {
    &&& 1 <= y <= 9999
    &&& 1 <= m <= 12
    &&& 1 <= d <= spec_days_in_month(y, m)
}

pub open spec fn spec_days_in_year(y: int) -> int {
    if spec_is_leap(y) {
        366
    } else {
        365
    }
}

/// Days from 0001-01-01 to y-01-01 (proleptic Gregorian).
pub open spec fn days_before_year(y: int) -> int
    recommends
        y >= 1,
    decreases y,
{
    if y <= 1 {
        0
    } else {
        days_before_year(y - 1) + spec_days_in_year(y - 1)
    }
}

/// Days from y-01-01 to y-m-01.
pub open spec fn days_before_month(y: int, m: int) -> int
    recommends
        m >= 1,
    decreases m,
{
    if m <= 1 {
        0
    } else {
        days_before_month(y, m - 1) + spec_days_in_month(y, m - 1)
    }
}

/// Days from 0001-01-01 to 1970-01-01.
pub open spec fn epoch_day_base() -> int {
    719162
}

/// Days since 1970-01-01 of the civil date y-m-d (negative before 1970).
pub open spec fn spec_days_from_civil(y: int, m: int, d: int) -> int {
    days_before_year(y) + days_before_month(y, m) + d - 1 - epoch_day_base()
}

/// First index at or after `i` holding a non-digit (or the end of `s`).
pub open spec fn digits_end(s: Seq<char>, i: int) -> int
    recommends
        0 <= i <= s.len(),
    decreases s.len() - i,
{
    if i < s.len() && spec_is_digit(s[i]) {
        digits_end(s, i + 1)
    } else {
        i
    }
}

/// The time-zone offset, in minutes, written at position `j`, or None if the
/// tail of `s` from `j` is not a well-formed offset.  "Z" and "z" mean zero;
/// "+hh:mm" and "-hh:mm" are always accepted; "+hhmm" and "-hhmm" only when
/// `colon_optional` holds (the fallback pattern, which carries no
/// fractional-second part).
pub open spec fn spec_offset_at(s: Seq<char>, j: int, colon_optional: bool) -> Option<int> {
    if j < s.len() && (s[j] == 'Z' || s[j] == 'z') && s.len() == j + 1 {
        Some(0)
    } else if j < s.len() && (s[j] == '+' || s[j] == '-') {
        let mag: Option<int> = if s.len() == j + 6 && all_digits(s, j + 1, 2) && s[j + 3] == ':'
            && all_digits(s, j + 4, 2) && num2(s, j + 1) <= 23 && num2(s, j + 4) <= 59 {
            Some(num2(s, j + 1) * 60 + num2(s, j + 4))
        } else if colon_optional && s.len() == j + 5 && all_digits(s, j + 1, 4) && num2(s, j + 1)
            <= 23 && num2(s, j + 3) <= 59 {
            Some(num2(s, j + 1) * 60 + num2(s, j + 3))
        } else {
            None
        };
        match mag {
            Some(m) => if s[j] == '+' {
                Some(m)
            } else {
                Some(-m)
            },
            None => None,
        }
    } else {
        None
    }
}

/// "YYYY-MM-DDThh:mm:ss" at the head of `s`, with in-range components.
pub open spec fn spec_head_ok(s: Seq<char>) -> bool {
    &&& s.len() >= 19
    &&& all_digits(s, 0, 4)
    &&& s[4] == '-'
    &&& all_digits(s, 5, 2)
    &&& s[7] == '-'
    &&& all_digits(s, 8, 2)
    &&& s[10] == 'T'
    &&& all_digits(s, 11, 2)
    &&& s[13] == ':'
    &&& all_digits(s, 14, 2)
    &&& s[16] == ':'
    &&& all_digits(s, 17, 2)
    &&& valid_civil(num4(s, 0), num2(s, 5), num2(s, 8))
    &&& num2(s, 11) <= 23
    &&& num2(s, 14) <= 59
    &&& num2(s, 17) <= 60
}

/// The UTC instant denoted by `s` in either accepted form, as seconds since
/// the epoch, or None when `s` is in neither form.
pub open spec fn date_epoch_of(s: Seq<char>) -> Option<int> {
    if !spec_head_ok(s) {
        None
    } else {
        let off = if s.len() > 19 && s[19] == '.' {
            let e = digits_end(s, 20);
            if e > 20 {
                spec_offset_at(s, e, false)
            } else {
                None
            }
        } else {
            spec_offset_at(s, 19, true)
        };
        match off {
            Some(om) => Some(
                spec_days_from_civil(num4(s, 0), num2(s, 5), num2(s, 8)) * 86400 + num2(s, 11)
                    * 3600 + num2(s, 14) * 60 + (if num2(s, 17) == 60 {
                    59int
                } else {
                    num2(s, 17)
                }) - om * 60,
            ),
            None => None,
        }
    }
}

fn is_digit(c: char) -> (r: bool)
    ensures
        r == spec_is_digit(c),
{
    '0' <= c && c <= '9'
}

/// Reads the two-digit number at position `i`.
fn read2(v: &Vec<char>, i: usize) -> (r: u32)
    requires
        i + 2 <= v.len(),
        all_digits(v@, i as int, 2),
    ensures
        r == num2(v@, i as int),
        r <= 99,
{
    let a: u32 = v[i] as u32 - '0' as u32;
    let b: u32 = v[i + 1] as u32 - '0' as u32;
    a * 10 + b
}

/// Reads the four-digit number at position `i`.
fn read4(v: &Vec<char>, i: usize) -> (r: u32)
    requires
        i + 4 <= v.len(),
        all_digits(v@, i as int, 4),
    ensures
        r == num4(v@, i as int),
        r <= 9999,
{
    let a: u32 = v[i] as u32 - '0' as u32;
    let b: u32 = v[i + 1] as u32 - '0' as u32;
    let c: u32 = v[i + 2] as u32 - '0' as u32;
    let d: u32 = v[i + 3] as u32 - '0' as u32;
    a * 1000 + b * 100 + c * 10 + d
}

fn days_in_month(y: u32, m: u32) -> (r: u32)
    requires
        1 <= m <= 12,
    ensures
        r == spec_days_in_month(y as int, m as int),
{
    if m == 2 {
        if y % 4 == 0 && (y % 100 != 0 || y % 400 == 0) {
            29
        } else {
            28
        }
    } else if m == 4 || m == 6 || m == 9 || m == 11 {
        30
    } else {
        31
    }
}

fn days_in_year(y: u32) -> (r: u32)
    ensures
        r == spec_days_in_year(y as int),
{
    if y % 4 == 0 && (y % 100 != 0 || y % 400 == 0) {
        366
    } else {
        365
    }
}

/// `days_before_year` grows by at least 365 and at most 366 per year.
pub proof fn lemma_days_before_year_bounds(a: int, b: int)
    requires
        1 <= a <= b,
    ensures
        365 * (b - a) <= days_before_year(b) - days_before_year(a) <= 366 * (b - a),
    decreases b - a,
{
    if a < b {
        lemma_days_before_year_bounds(a, b - 1);
    }
}

/// Days since the epoch of y-m-d, as `spec_days_from_civil` gives them.
fn days_from_civil(y: u32, m: u32, d: u32) -> (r: i64)
    requires
        valid_civil(y as int, m as int, d as int),
    ensures
        r == spec_days_from_civil(y as int, m as int, d as int),
        -719162 <= r <= 2941000,
{
    let mut acc: u64 = 0;
    let mut i: u32 = 1;
    while i < y
        invariant
            1 <= i <= y <= 9999,
            acc == days_before_year(i as int),
            acc <= 366 * (i - 1),
        decreases y - i,
    {
        acc = acc + days_in_year(i) as u64;
        i = i + 1;
    }
    let mut mm: u32 = 1;
    while mm < m
        invariant
            1 <= mm <= m <= 12,
            1 <= y <= 9999,
            acc == days_before_year(y as int) + days_before_month(y as int, mm as int),
            acc <= 366 * 9998 + 31 * (mm - 1),
        decreases m - mm,
    {
        acc = acc + days_in_month(y, mm) as u64;
        mm = mm + 1;
    }
    proof {
        lemma_days_before_year_bounds(1, y as int);
        lemma_days_before_month_bound(y as int, m as int);
    }
    (acc + d as u64) as i64 - 1 - 719162
}

/// Closed form for `days_before_year`.
pub proof fn lemma_days_before_year_closed(y: int)
    requires
        y >= 1,
    ensures
        days_before_year(y) == 365 * (y - 1) + (y - 1) / 4 - (y - 1) / 100 + (y - 1) / 400,
    decreases y,
{
    if y > 1 {
        lemma_days_before_year_closed(y - 1);
    }
}

/// `days_before_month` never exceeds a year's length.
pub proof fn lemma_days_before_month_bound(y: int, m: int)
    requires
        1 <= m <= 13,
    ensures
        0 <= days_before_month(y, m) <= 366,
        m == 13 ==> days_before_month(y, m) == spec_days_in_year(y),
{
    reveal_with_fuel(days_before_month, 14);
}

/// Parses `v` as a date in either accepted form; the result is exactly what
/// `date_epoch_of` gives of the character sequence.
pub fn parse_date(v: &Vec<char>) -> (r: Option<i64>)
    ensures
        r is Some <==> date_epoch_of(v@) is Some,
        r matches Some(t) ==> date_epoch_of(v@) == Some(t as int),
{
    if !head_ok(v) {
        return None;
    }
    let y: u32 = read4(v, 0);
    let mo: u32 = read2(v, 5);
    let d: u32 = read2(v, 8);
    let h: u32 = read2(v, 11);
    let mi: u32 = read2(v, 14);
    let sec: u32 = read2(v, 17);
    let off: Option<i64> = if v.len() > 19 && v[19] == '.' {
        let mut e: usize = 20;
        while e < v.len() && is_digit(v[e])
            invariant
                20 <= e <= v.len(),
                digits_end(v@, 20) == digits_end(v@, e as int),
            decreases v.len() - e,
        {
            e = e + 1;
        }
        assert(digits_end(v@, e as int) == e);
        if e > 20 {
            offset_at(v, e, false)
        } else {
            None
        }
    } else {
        offset_at(v, 19, true)
    };
    match off {
        Some(om) => {
            let days: i64 = days_from_civil(y, mo, d);
            let se: u32 = if sec == 60 {
                59
            } else {
                sec
            };
            Some(
                days * 86400 + (h as i64) * 3600 + (mi as i64) * 60 + (se as i64) - om * 60,
            )
        },
        None => None,
    }
}

fn head_ok(v: &Vec<char>) -> (r: bool)
    ensures
        r == spec_head_ok(v@),
{
    if v.len() < 19 {
        return false;
    }
    let shape: bool = digits_range(v, 0, 4) && v[4] == '-' && digits_range(v, 5, 2) && v[7] == '-'
        && digits_range(v, 8, 2) && v[10] == 'T' && digits_range(v, 11, 2) && v[13] == ':'
        && digits_range(v, 14, 2) && v[16] == ':' && digits_range(v, 17, 2);
    if !shape {
        return false;
    }
    let y: u32 = read4(v, 0);
    let mo: u32 = read2(v, 5);
    let d: u32 = read2(v, 8);
    if !(1 <= y && 1 <= mo && mo <= 12 && 1 <= d) {
        return false;
    }
    if d > days_in_month(y, mo) {
        return false;
    }
    read2(v, 11) <= 23 && read2(v, 14) <= 59 && read2(v, 17) <= 60
}

fn digits_range(v: &Vec<char>, start: usize, n: usize) -> (r: bool)
    requires
        start + n <= v.len(),
    ensures
        r == all_digits(v@, start as int, n as int),
{
    let mut k: usize = 0;
    while k < n
        invariant
            0 <= k <= n,
            start + n <= v.len(),
            forall|j: int| start <= j < start + k ==> spec_is_digit(#[trigger] v@[j]),
        decreases n - k,
    {
        if !is_digit(v[start + k]) {
            return false;
        }
        k = k + 1;
    }
    true
}

/// Reads the offset written at `j`, as `spec_offset_at` gives it.
fn offset_at(v: &Vec<char>, j: usize, colon_optional: bool) -> (r: Option<i64>)
    requires
        j <= v.len(),
    ensures
        r is Some <==> spec_offset_at(v@, j as int, colon_optional) is Some,
        r matches Some(om) ==> spec_offset_at(v@, j as int, colon_optional) == Some(om as int),
        r matches Some(om) ==> -1439 <= om <= 1439,
{
    if j < v.len() && (v[j] == 'Z' || v[j] == 'z') && v.len() == j + 1 {
        return Some(0);
    }
    if !(j < v.len() && (v[j] == '+' || v[j] == '-')) {
        return None;
    }
    let neg: bool = v[j] == '-';
    if v.len() - j == 6 && digits_range(v, j + 1, 2) {
        if v[j + 3] == ':' && digits_range(v, j + 4, 2) {
            let hh: u32 = read2(v, j + 1);
            let mm: u32 = read2(v, j + 4);
            if hh <= 23 && mm <= 59 {
                let om: i64 = (hh as i64) * 60 + (mm as i64);
                let signed: i64 = if neg {
                    -om
                } else {
                    om
                };

                return Some(signed);
            }
        }
        return None;
    }
    if colon_optional && v.len() - j == 5 && digits_range(v, j + 1, 4) {
        let hh: u32 = read2(v, j + 1);
        let mm: u32 = read2(v, j + 3);
        if hh <= 23 && mm <= 59 {
            let om: i64 = (hh as i64) * 60 + (mm as i64);
            return if neg {
                Some(-om)
            } else {
                Some(om)
            };
        }
        return None;
    }
    None
}


pub open spec fn digit_char(v: int) -> char {
    if v == 0 {
        '0'
    } else if v == 1 {
        '1'
    } else if v == 2 {
        '2'
    } else if v == 3 {
        '3'
    } else if v == 4 {
        '4'
    } else if v == 5 {
        '5'
    } else if v == 6 {
        '6'
    } else if v == 7 {
        '7'
    } else if v == 8 {
        '8'
    } else {
        '9'
    }
}

fn digit_char_exec(v: u64) -> (r: char)
    requires
        v <= 9,
    ensures
        r == digit_char(v as int),
        spec_is_digit(r),
        digit_val(r) == v,
{
    if v == 0 {
        '0'
    } else if v == 1 {
        '1'
    } else if v == 2 {
        '2'
    } else if v == 3 {
        '3'
    } else if v == 4 {
        '4'
    } else if v == 5 {
        '5'
    } else if v == 6 {
        '6'
    } else if v == 7 {
        '7'
    } else if v == 8 {
        '8'
    } else {
        '9'
    }
}

/// Appends the two decimal digits of `v`.
fn push2(out: &mut Vec<char>, v: u64)
    requires
        v <= 99,
    ensures
        final(out).len() == old(out).len() + 2,
        forall|i: int| 0 <= i < old(out).len() ==> final(out)@[i] == old(out)@[i],
        all_digits(final(out)@, old(out)@.len() as int, 2),
        num2(final(out)@, old(out)@.len() as int) == v,
{
    let d0: u64 = v / 10;
    let d1: u64 = v % 10;
    out.push(digit_char_exec(d0));
    out.push(digit_char_exec(d1));
}

/// Appends the four decimal digits of `v`, zero padded.
fn push4(out: &mut Vec<char>, v: u64)
    requires
        v <= 9999,
    ensures
        final(out).len() == old(out).len() + 4,
        forall|i: int| 0 <= i < old(out).len() ==> final(out)@[i] == old(out)@[i],
        all_digits(final(out)@, old(out)@.len() as int, 4),
        num4(final(out)@, old(out)@.len() as int) == v,
{
    let d0: u64 = v / 1000;
    let r0: u64 = v % 1000;
    let d1: u64 = r0 / 100;
    let r1: u64 = r0 % 100;
    let d2: u64 = r1 / 10;
    let d3: u64 = r1 % 10;
    out.push(digit_char_exec(d0));
    out.push(digit_char_exec(d1));
    out.push(digit_char_exec(d2));
    out.push(digit_char_exec(d3));
}

/// Civil date of a nonnegative day count since the epoch.
fn civil_from_days(days: u64) -> (r: (u32, u32, u32))
    requires
        days <= 2932896,
    ensures
        ({
            let (y, m, d) = r;
            valid_civil(y as int, m as int, d as int) && spec_days_from_civil(
                y as int,
                m as int,
                d as int,
            ) == days && 1970 <= y
        }),
{
    proof {
        lemma_days_before_year_closed(1970);
    }
    let mut y: u32 = 1970;
    let mut rem: u64 = days;
    while rem >= days_in_year(y) as u64
        invariant
            1970 <= y <= 9999,
            days_before_year(y as int) - 719162 + rem == days,
            days <= 2932896,
        decreases rem,
    {
        proof {
            lemma_days_before_year_closed(9999);
        }
        rem = rem - days_in_year(y) as u64;
        y = y + 1;
    }
    let mut m: u32 = 1;
    while rem >= days_in_month(y, m) as u64
        invariant
            1 <= m <= 12,
            1970 <= y <= 9999,
            days_before_year(y as int) + days_before_month(y as int, m as int) - 719162 + rem
                == days,
            days_before_month(y as int, m as int) + rem < spec_days_in_year(y as int),
        decreases 12 - m,
    {
        proof {
            lemma_days_before_month_bound(y as int, 13);
        }
        rem = rem - days_in_month(y, m) as u64;
        m = m + 1;
    }
    let d: u32 = (rem + 1) as u32;
    (y, m, d)
}

/// Renders a nonnegative instant as "YYYY-MM-DDThh:mm:ssZ"; the result reads
/// back, through `date_epoch_of`, as exactly the instant given.
pub fn format_epoch(t: i64) -> (r: String)
    requires
        0 <= t <= MAX_EPOCH,
    ensures
        r@.len() == 20,
        date_epoch_of(r@) == Some(t as int),
{
    let tu: u64 = t as u64;
    let days: u64 = tu / 86400;
    let secs: u64 = tu % 86400;
    let (y, m, d) = civil_from_days(days);
    let h: u64 = secs / 3600;
    let rem2: u64 = secs % 3600;
    let mi: u64 = rem2 / 60;
    let sec: u64 = rem2 % 60;
    let mut out: Vec<char> = Vec::new();
    push4(&mut out, y as u64);
    out.push('-');
    push2(&mut out, m as u64);
    out.push('-');
    push2(&mut out, d as u64);
    out.push('T');
    push2(&mut out, h);
    out.push(':');
    push2(&mut out, mi);
    out.push(':');
    push2(&mut out, sec);
    out.push('Z');
    proof {
        let s = out@;
        assert(s.len() == 20);
        assert(spec_head_ok(s));
        assert(spec_offset_at(s, 19, true) == Some(0int));
        assert(date_epoch_of(s) == Some(t as int));
    }
    crate::text::string_of_chars(&out)
}

} // verus!
