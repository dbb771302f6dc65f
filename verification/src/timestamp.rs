//! RFC-3339 timestamps read as instants, for the replay's "at or after"
//! filter.
//!
//! A timestamp is `YYYY-MM-DDTHH:MM:SS`, an optional fraction of a second
//! (`.` and one or more digits), and a zone: `Z` or `±HH:MM`. `t` and a space
//! are accepted for `T`, and `z` for `Z`. Its instant is the whole number of
//! seconds on the proleptic Gregorian calendar, shifted to UTC, together with
//! the digits of the fraction.
use vstd::prelude::*;

use crate::text::{chars_of, text_lt};

verus! {

/// Whether `c` is an ASCII decimal digit.
pub open spec fn is_digit(c: char) -> bool {
    48 <= (c as u32) <= 57
}

/// The value of digit `c`.
pub open spec fn digit_value(c: char) -> int {
    (c as u32) as int - 48
}

/// The `n` characters of `s` from `i` are digits.
pub open spec fn digits_at(s: Seq<char>, i: int, n: int) -> bool {
    forall|k: int| i <= k < i + n ==> is_digit(#[trigger] s[k])
}

/// The decimal number written by the `n` characters of `s` from `i`.
pub open spec fn number_at(s: Seq<char>, i: int, n: nat) -> int
    decreases n,
{
    if n == 0 {
        0
    } else {
        number_at(s, i, (n - 1) as nat) * 10 + digit_value(s[i + n - 1])
    }
}

/// Leap years of the Gregorian calendar.
pub open spec fn is_leap(y: int) -> bool {
    y % 4 == 0 && (y % 100 != 0 || y % 400 == 0)
}

/// The number of days of month `m` of year `y`.
pub open spec fn days_in_month(y: int, m: int) -> int {
    if m == 2 {
        if is_leap(y) {
            29
        } else {
            28
        }
    } else if m == 4 || m == 6 || m == 9 || m == 11 {
        30
    } else {
        31
    }
}

/// The days of year `y` before the first of month `m`.
pub open spec fn days_before_month(y: int, m: int) -> int {
    let common: int = if m == 1 {
        0
    } else if m == 2 {
        31
    } else if m == 3 {
        59
    } else if m == 4 {
        90
    } else if m == 5 {
        120
    } else if m == 6 {
        151
    } else if m == 7 {
        181
    } else if m == 8 {
        212
    } else if m == 9 {
        243
    } else if m == 10 {
        273
    } else if m == 11 {
        304
    } else {
        334
    };
    if m > 2 && is_leap(y) {
        common + 1
    } else {
        common
    }
}

/// The days of the years `0 .. y` (year 0 being a leap year).
pub open spec fn days_before_year(y: int) -> int {
    365 * y + (y + 3) / 4 - (y + 99) / 100 + (y + 399) / 400
}

/// The number of the day `y-m-d`, counted from the first day of year 0.
pub open spec fn day_number(y: int, m: int, d: int) -> int {
    days_before_year(y) + days_before_month(y, m) + d - 1
}

/// The fixed part `YYYY-MM-DDTHH:MM:SS` is laid out right.
pub open spec fn layout_ok(s: Seq<char>) -> bool {
    &&& s.len() >= 20
    &&& digits_at(s, 0, 4)
    &&& s[4] == '-'
    &&& digits_at(s, 5, 2)
    &&& s[7] == '-'
    &&& digits_at(s, 8, 2)
    &&& (s[10] == 'T' || s[10] == 't' || s[10] == ' ')
    &&& digits_at(s, 11, 2)
    &&& s[13] == ':'
    &&& digits_at(s, 14, 2)
    &&& s[16] == ':'
    &&& digits_at(s, 17, 2)
}

/// The date and time fields are in range (a leap second `60` is allowed).
pub open spec fn fields_ok(s: Seq<char>) -> bool {
    let y = number_at(s, 0, 4);
    let m = number_at(s, 5, 2);
    let d = number_at(s, 8, 2);
    &&& 1 <= m <= 12
    &&& 1 <= d <= days_in_month(y, m)
    &&& number_at(s, 11, 2) <= 23
    &&& number_at(s, 14, 2) <= 59
    &&& number_at(s, 17, 2) <= 60
}

/// The number of consecutive digits of `s` from `i`.
pub open spec fn digit_run(s: Seq<char>, i: int) -> int
    decreases s.len() - i,
{
    if 0 <= i < s.len() && is_digit(s[i]) {
        1 + digit_run(s, i + 1)
    } else {
        0
    }
}

/// Where the zone starts: after the fraction, if there is one.
pub open spec fn zone_start(s: Seq<char>) -> int {
    if s[19] == '.' {
        20 + digit_run(s, 20)
    } else {
        19
    }
}

/// The offset from UTC, in seconds, that zone `z` denotes.
pub open spec fn zone_offset(z: Seq<char>) -> Option<int> {
    if z.len() == 1 && (z[0] == 'Z' || z[0] == 'z') {
        Some(0)
    } else if z.len() == 6 && (z[0] == '+' || z[0] == '-') && digits_at(z, 1, 2) && z[3] == ':'
        && digits_at(z, 4, 2) && number_at(z, 1, 2) <= 23 && number_at(z, 4, 2) <= 59 {
        let off = number_at(z, 1, 2) * 3600 + number_at(z, 4, 2) * 60;
        if z[0] == '+' {
            Some(off)
        } else {
            Some(-off)
        }
    } else {
        None
    }
}

/// A point in time: whole seconds, and the digits of the fraction.
pub struct Instant {
    pub seconds: int,
    pub fraction: Seq<char>,
}

/// The instant that `s` denotes, or `None` when `s` is not a timestamp.
pub open spec fn timestamp_instant(s: Seq<char>) -> Option<Instant> {
    if !layout_ok(s) || !fields_ok(s) {
        None
    } else if s[19] == '.' && digit_run(s, 20) == 0 {
        None
    } else {
        match zone_offset(s.subrange(zone_start(s), s.len() as int)) {
            None => None,
            Some(off) => Some(
                Instant {
                    seconds: day_number(number_at(s, 0, 4), number_at(s, 5, 2), number_at(s, 8, 2))
                        * 86400 + number_at(s, 11, 2) * 3600 + number_at(s, 14, 2) * 60
                        + number_at(s, 17, 2) - off,
                    fraction: if s[19] == '.' {
                        s.subrange(20, zone_start(s))
                    } else {
                        Seq::empty()
                    },
                },
            ),
        }
    }
}

/// The fraction digits `a` denote a smaller fraction than `b` (missing
/// digits count as zeros).
pub open spec fn fraction_less(a: Seq<char>, b: Seq<char>) -> bool
    decreases a.len() + b.len(),
{
    if a.len() == 0 && b.len() == 0 {
        false
    } else {
        let x = if a.len() > 0 {
            digit_value(a[0])
        } else {
            0
        };
        let y = if b.len() > 0 {
            digit_value(b[0])
        } else {
            0
        };
        if x != y {
            x < y
        } else {
            fraction_less(
                if a.len() > 0 {
                    a.drop_first()
                } else {
                    a
                },
                if b.len() > 0 {
                    b.drop_first()
                } else {
                    b
                },
            )
        }
    }
}

/// `a` is at or after `b`.
pub open spec fn at_or_after(a: Instant, b: Instant) -> bool {
    a.seconds > b.seconds || (a.seconds == b.seconds && !fraction_less(a.fraction, b.fraction))
}

/// An instant read from a timestamp.
pub struct Timestamp {
    pub seconds: i64,
    pub fraction: Vec<char>,
}

/// Whether `c` is a decimal digit.
fn digit_char(c: char) -> (r: bool)
    ensures
        r == is_digit(c),
{
    let u = c as u32;
    48 <= u && u <= 57
}

/// The value of digit `c`.
fn digit_of(c: char) -> (r: i64)
    ensures
        r == digit_value(c),
{
    let u = c as u32;
    (u as i64) - 48
}

/// Whether the `n` characters of `v` from `i` are digits.
fn digits_ok(v: &Vec<char>, i: usize, n: usize) -> (r: bool)
    requires
        i + n <= v.len(),
    ensures
        r == digits_at(v@, i as int, n as int),
{
    let mut k: usize = 0;
    while k < n
        invariant
            k <= n,
            i + n <= v.len(),
            forall|j: int| i <= j < i + k ==> is_digit(#[trigger] v@[j]),
        decreases n - k,
    {
        if !digit_char(v[i + k]) {
            return false;
        }
        k = k + 1;
    }
    true
}

/// The decimal number written by `n <= 4` digits of `v` from `i`.
fn number(v: &Vec<char>, i: usize, n: usize) -> (r: i64)
    requires
        i + n <= v.len(),
        n <= 4,
        digits_at(v@, i as int, n as int),
    ensures
        r == number_at(v@, i as int, n as nat),
        0 <= r < 10000,
{
    let mut r: i64 = 0;
    let mut k: usize = 0;
    while k < n
        invariant
            k <= n <= 4,
            i + n <= v.len(),
            digits_at(v@, i as int, n as int),
            r == number_at(v@, i as int, k as nat),
            0 <= r,
            k == 0 ==> r < 1,
            k == 1 ==> r < 10,
            k == 2 ==> r < 100,
            k == 3 ==> r < 1000,
            k == 4 ==> r < 10000,
        decreases n - k,
    {
        assert(is_digit(v@[i + k]));
        r = r * 10 + digit_of(v[i + k]);
        k = k + 1;
    }
    r
}

fn leap(y: i64) -> (r: bool)
    requires
        y >= 0,
    ensures
        r == is_leap(y as int),
{
    y % 4 == 0 && (y % 100 != 0 || y % 400 == 0)
}

fn month_days(y: i64, m: i64) -> (r: i64)
    requires
        y >= 0,
    ensures
        r == days_in_month(y as int, m as int),
{
    if m == 2 {
        if leap(y) {
            29
        } else {
            28
        }
    } else if m == 4 || m == 6 || m == 9 || m == 11 {
        30
    } else {
        31
    }
}

fn day_count(y: i64, m: i64, d: i64) -> (r: i64)
    requires
        0 <= y < 10000,
        1 <= m <= 12,
        1 <= d <= 31,
    ensures
        r == day_number(y as int, m as int, d as int),
        0 <= r < 4000000,
{
    let common: i64 = if m == 1 {
        0
    } else if m == 2 {
        31
    } else if m == 3 {
        59
    } else if m == 4 {
        90
    } else if m == 5 {
        120
    } else if m == 6 {
        151
    } else if m == 7 {
        181
    } else if m == 8 {
        212
    } else if m == 9 {
        243
    } else if m == 10 {
        273
    } else if m == 11 {
        304
    } else {
        334
    };
    let before_month = if m > 2 && leap(y) {
        common + 1
    } else {
        common
    };
    let before_year = 365 * y + (y + 3) / 4 - (y + 99) / 100 + (y + 399) / 400;
    before_year + before_month + d - 1
}

fn run_of_digits(v: &Vec<char>, i: usize) -> (r: usize)
    requires
        i <= v.len(),
    ensures
        r == digit_run(v@, i as int),
        i + r <= v.len(),
        digits_at(v@, i as int, r as int),
{
    let mut j: usize = i;
    while j < v.len() && digit_char(v[j])
        invariant
            i <= j <= v.len(),
            digits_at(v@, i as int, j - i),
        decreases v.len() - j,
    {
        j = j + 1;
    }
    proof {
        lemma_digit_run(v@, i as int, j as int);
    }
    j - i
}

proof fn lemma_digit_run(s: Seq<char>, i: int, j: int)
    requires
        0 <= i <= j <= s.len(),
        digits_at(s, i, j - i),
        j == s.len() || !is_digit(s[j]),
    ensures
        digit_run(s, i) == j - i,
    decreases j - i,
{
    if i < j {
        assert(is_digit(s[i]));
        lemma_digit_run(s, i + 1, j);
    }
}

/// The offset of zone `v[start..]`, in seconds.
fn zone(v: &Vec<char>, start: usize) -> (r: Option<i64>)
    requires
        start <= v.len(),
    ensures
        match r {
            Some(o) => zone_offset(v@.subrange(start as int, v.len() as int)) == Some(o as int)
                && -86400 < o < 86400,
            None => zone_offset(v@.subrange(start as int, v.len() as int)) is None,
        },
{
    let ghost z = v@.subrange(start as int, v.len() as int);
    let n = v.len() - start;
    if n == 1 && (v[start] == 'Z' || v[start] == 'z') {
        assert(z[0] == v@[start as int]);
        return Some(0);
    }
    if n == 6 && (v[start] == '+' || v[start] == '-') && digits_ok(v, start + 1, 2) && v[start + 3]
        == ':' && digits_ok(v, start + 4, 2) {
        assert(z[0] == v@[start as int]);
        assert(z[3] == v@[start + 3]);
        assert(digits_at(z, 1, 2)) by {
            assert(z[1] == v@[start + 1] && z[2] == v@[start + 2]);
        }
        assert(digits_at(z, 4, 2)) by {
            assert(z[4] == v@[start + 4] && z[5] == v@[start + 5]);
        }
        let oh = number(v, start + 1, 2);
        let om = number(v, start + 4, 2);
        assert(number_at(z, 1, 2) == oh) by {
            assert(z[1] == v@[start + 1] && z[2] == v@[start + 2]);
            assert(number_at(z, 1, 0) == 0 && number_at(v@, start + 1, 0) == 0);
            assert(number_at(z, 1, 1) == number_at(v@, start + 1, 1));
        }
        assert(number_at(z, 4, 2) == om) by {
            assert(z[4] == v@[start + 4] && z[5] == v@[start + 5]);
            assert(number_at(z, 4, 0) == 0 && number_at(v@, start + 4, 0) == 0);
            assert(number_at(z, 4, 1) == number_at(v@, start + 4, 1));
        }
        if oh <= 23 && om <= 59 {
            let off = oh * 3600 + om * 60;
            if v[start] == '+' {
                return Some(off);
            } else {
                return Some(-off);
            }
        }
        return None;
    }
    proof {
        if n == 1 {
            assert(z[0] == v@[start as int]);
        }
        if n == 6 {
            assert(z[0] == v@[start as int]);
            assert(z[3] == v@[start + 3]);
            if digits_at(z, 1, 2) {
                assert(z[1] == v@[start + 1] && z[2] == v@[start + 2]);
                assert(digits_at(v@, start + 1, 2));
            }
            if digits_at(z, 4, 2) {
                assert(z[4] == v@[start + 4] && z[5] == v@[start + 5]);
                assert(digits_at(v@, start + 4, 2));
            }
        }
    }
    None
}

/// Read `s` as a timestamp: its instant, or `None` when `s` is not one.
pub fn parse_timestamp(s: &str) -> (r: Option<Timestamp>)
    ensures
        match r {
            Some(t) => timestamp_instant(s@) == Some(
                Instant { seconds: t.seconds as int, fraction: t.fraction@ },
            ),
            None => timestamp_instant(s@) is None,
        },
{
    let v = chars_of(s);
    if v.len() < 20 {
        return None;
    }
    if !(digits_ok(&v, 0, 4) && v[4] == '-' && digits_ok(&v, 5, 2) && v[7] == '-' && digits_ok(
        &v,
        8,
        2,
    ) && (v[10] == 'T' || v[10] == 't' || v[10] == ' ') && digits_ok(&v, 11, 2) && v[13] == ':'
        && digits_ok(&v, 14, 2) && v[16] == ':' && digits_ok(&v, 17, 2)) {
        return None;
    }
    let y = number(&v, 0, 4);
    let mo = number(&v, 5, 2);
    let d = number(&v, 8, 2);
    let h = number(&v, 11, 2);
    let mi = number(&v, 14, 2);
    let se = number(&v, 17, 2);
    if !(1 <= mo && mo <= 12) {
        return None;
    }
    if !(1 <= d && d <= month_days(y, mo) && h <= 23 && mi <= 59 && se <= 60) {
        return None;
    }
    let mut start: usize = 19;
    let mut fraction: Vec<char> = Vec::new();
    if v[19] == '.' {
        let run = run_of_digits(&v, 20);
        if run == 0 {
            return None;
        }
        start = 20 + run;
        let mut k: usize = 20;
        while k < start
            invariant
                20 <= k <= start <= v.len(),
                fraction@ == v@.subrange(20, k as int),
            decreases start - k,
        {
            fraction.push(v[k]);
            assert(v@.subrange(20, k + 1) == v@.subrange(20, k as int).push(v@[k as int]));
            k = k + 1;
        }
    } else {
        assert(fraction@ == Seq::<char>::empty());
    }
    assert(start as int == zone_start(v@));
    match zone(&v, start) {
        None => None,
        Some(off) => {
            let days = day_count(y, mo, d);
            Some(Timestamp { seconds: days * 86400 + h * 3600 + mi * 60 + se - off, fraction })
        },
    }
}

fn fraction_digit(a: &Vec<char>, i: usize) -> (r: i64)
    ensures
        r == (if i < a.len() {
            digit_value(a@[i as int])
        } else {
            0
        }),
{
    if i < a.len() {
        digit_of(a[i])
    } else {
        0
    }
}

/// `a` from position `i` on, or nothing past its end.
pub open spec fn tail_from(a: Seq<char>, i: int) -> Seq<char> {
    if i < a.len() {
        a.subrange(i, a.len() as int)
    } else {
        Seq::empty()
    }
}

/// Whether fraction `a` is smaller than fraction `b`.
fn fraction_smaller(a: &Vec<char>, b: &Vec<char>) -> (r: bool)
    ensures
        r == fraction_less(a@, b@),
{
    let mut i: usize = 0;
    assert(tail_from(a@, 0) == a@ || a@.len() == 0);
    assert(tail_from(a@, 0) == a@);
    assert(tail_from(b@, 0) == b@);
    while i < a.len() || i < b.len()
        invariant
            fraction_less(a@, b@) == fraction_less(tail_from(a@, i as int), tail_from(b@, i as int)),
        decreases (a.len() + b.len()) - i,
    {
        let x = fraction_digit(a, i);
        let y = fraction_digit(b, i);
        let ghost ta = tail_from(a@, i as int);
        let ghost tb = tail_from(b@, i as int);
        if i < a.len() {
            assert(ta[0] == a@[i as int]);
            assert(ta.drop_first() == tail_from(a@, i + 1));
        }
        if i < b.len() {
            assert(tb[0] == b@[i as int]);
            assert(tb.drop_first() == tail_from(b@, i + 1));
        }
        if x != y {
            return x < y;
        }
        i = i + 1;
    }
    false
}

/// Whether timestamp `a` is at or after timestamp `b`.
pub fn timestamp_at_or_after(a: &Timestamp, b: &Timestamp) -> (r: bool)
    ensures
        r == at_or_after(
            Instant { seconds: a.seconds as int, fraction: a.fraction@ },
            Instant { seconds: b.seconds as int, fraction: b.fraction@ },
        ),
{
    a.seconds > b.seconds || (a.seconds == b.seconds && !fraction_smaller(&a.fraction, &b.fraction))
}


/// No fraction is smaller than itself.
pub proof fn lemma_fraction_less_irreflexive(a: Seq<char>)
    ensures
        !fraction_less(a, a),
    decreases a.len(),
{
    if a.len() > 0 {
        lemma_fraction_less_irreflexive(a.drop_first());
    }
}


/// The two-digit number at positions `i`, `i + 1` of `s`.
pub open spec fn two_digits(s: Seq<char>, i: int) -> int {
    digit_value(s[i]) * 10 + digit_value(s[i + 1])
}

/// The year, month, day, hour, minute and second written in `s`.
pub open spec fn clock_fields(s: Seq<char>) -> (int, int, int, int, int, int) {
    (
        two_digits(s, 0) * 100 + two_digits(s, 2),
        two_digits(s, 5),
        two_digits(s, 8),
        two_digits(s, 11),
        two_digits(s, 14),
        two_digits(s, 17),
    )
}

/// `s` is a UTC timestamp `YYYY-MM-DDTHH:MM:SSZ` with a real date and time
/// (no fraction, no leap second).
pub open spec fn plain_utc(s: Seq<char>) -> bool {
    let (y, mo, d, h, mi, se) = clock_fields(s);
    &&& s.len() == 20
    &&& forall|k: int|
        0 <= k < 19 && k != 4 && k != 7 && k != 10 && k != 13 && k != 16 ==> is_digit(
            #[trigger] s[k],
        )
    &&& s[4] == '-' && s[7] == '-' && s[10] == 'T' && s[13] == ':' && s[16] == ':' && s[19] == 'Z'
    &&& 1 <= mo <= 12
    &&& 1 <= d <= days_in_month(y, mo)
    &&& h <= 23 && mi <= 59 && se <= 59
}

/// Field tuple `a` is at or after field tuple `b`, comparing year, then
/// month, day, hour, minute and second.
pub open spec fn fields_at_or_after(
    a: (int, int, int, int, int, int),
    b: (int, int, int, int, int, int),
) -> bool {
    if a.0 != b.0 {
        a.0 > b.0
    } else if a.1 != b.1 {
        a.1 > b.1
    } else if a.2 != b.2 {
        a.2 > b.2
    } else if a.3 != b.3 {
        a.3 > b.3
    } else if a.4 != b.4 {
        a.4 > b.4
    } else {
        a.5 >= b.5
    }
}

proof fn lemma_digits_bounds(s: Seq<char>, i: int)
    requires
        0 <= i,
        i + 1 < s.len(),
        is_digit(s[i]),
        is_digit(s[i + 1]),
    ensures
        0 <= two_digits(s, i) <= 99,
        number_at(s, i, 2) == two_digits(s, i),
{
    assert(number_at(s, i, 0) == 0);
    assert(number_at(s, i, 1) == digit_value(s[i]));
}

proof fn lemma_month_step(y: int, m: int)
    requires
        1 <= m <= 12,
    ensures
        m < 12 ==> days_before_month(y, m) + days_in_month(y, m) == days_before_month(y, m + 1),
        m == 12 ==> days_before_month(y, m) + days_in_month(y, m) == 365 + if is_leap(y) {
            1int
        } else {
            0int
        },
{
}

proof fn lemma_month_mono(y: int, m: int, m2: int)
    requires
        1 <= m < m2 <= 12,
    ensures
        days_before_month(y, m) + days_in_month(y, m) <= days_before_month(y, m2),
    decreases m2 - m,
{
    lemma_month_step(y, m);
    if m + 1 < m2 {
        lemma_month_mono(y, m + 1, m2);
        lemma_month_step(y, m + 1);
    }
}

proof fn lemma_year_step(y: int)
    requires
        y >= 0,
    ensures
        days_before_year(y + 1) == days_before_year(y) + 365 + if is_leap(y) {
            1int
        } else {
            0int
        },
{
    assert((y + 4) / 4 - (y + 3) / 4 == if y % 4 == 0 { 1int } else { 0int }) by (nonlinear_arith)
        requires y >= 0;
    assert((y + 100) / 100 - (y + 99) / 100 == if y % 100 == 0 { 1int } else { 0int }) by (nonlinear_arith)
        requires y >= 0;
    assert((y + 400) / 400 - (y + 399) / 400 == if y % 400 == 0 { 1int } else { 0int }) by (nonlinear_arith)
        requires y >= 0;
    assert(y % 400 == 0 ==> y % 100 == 0 && y % 4 == 0) by (nonlinear_arith)
        requires y >= 0;
    assert(y % 100 == 0 ==> y % 4 == 0) by (nonlinear_arith)
        requires y >= 0;
}

proof fn lemma_year_mono(y: int, y2: int)
    requires
        0 <= y < y2,
    ensures
        days_before_year(y) + 365 + (if is_leap(y) { 1int } else { 0int }) <= days_before_year(y2),
    decreases y2 - y,
{
    lemma_year_step(y);
    if y + 1 < y2 {
        lemma_year_mono(y + 1, y2);
    }
}

proof fn lemma_day_order(y: int, m: int, d: int, y2: int, m2: int, d2: int)
    requires
        0 <= y,
        0 <= y2,
        1 <= m <= 12,
        1 <= m2 <= 12,
        1 <= d <= days_in_month(y, m),
        1 <= d2 <= days_in_month(y2, m2),
        fields_at_or_after((y, m, d, 0, 0, 0), (y2, m2, d2, 0, 0, 0)),
        (y, m, d) != (y2, m2, d2),
    ensures
        day_number(y, m, d) > day_number(y2, m2, d2),
{
    if y == y2 {
        if m != m2 {
            lemma_month_mono(y, m2, m);
        }
    } else {
        lemma_year_mono(y2, y);
        lemma_month_step(y2, m2);
        if m2 < 12 {
            lemma_month_mono(y2, m2, 12);
            lemma_month_step(y2, 12);
        }
        assert(days_before_month(y, m) >= 0);
    }
}

proof fn lemma_plain_utc_instant(s: Seq<char>)
    requires
        plain_utc(s),
    ensures
        timestamp_instant(s) == Some(
            Instant {
                seconds: day_number(clock_fields(s).0, clock_fields(s).1, clock_fields(s).2) * 86400
                    + clock_fields(s).3 * 3600 + clock_fields(s).4 * 60 + clock_fields(s).5,
                fraction: Seq::empty(),
            },
        ),
{
    assert(is_digit(s[0]) && is_digit(s[1]) && is_digit(s[2]) && is_digit(s[3]));
    assert(is_digit(s[5]) && is_digit(s[6]) && is_digit(s[8]) && is_digit(s[9]));
    assert(is_digit(s[11]) && is_digit(s[12]) && is_digit(s[14]) && is_digit(s[15]));
    assert(is_digit(s[17]) && is_digit(s[18]));
    lemma_digits_bounds(s, 5);
    lemma_digits_bounds(s, 8);
    lemma_digits_bounds(s, 11);
    lemma_digits_bounds(s, 14);
    lemma_digits_bounds(s, 17);
    lemma_digits_bounds(s, 0);
    lemma_digits_bounds(s, 2);
    assert(number_at(s, 0, 1) == digit_value(s[0]));
    assert(number_at(s, 0, 3) == number_at(s, 0, 2) * 10 + digit_value(s[2]));
    assert(number_at(s, 0, 4) == clock_fields(s).0);
    assert(layout_ok(s));
    assert(fields_ok(s));
    assert(zone_start(s) == 19);
    let z = s.subrange(19, 20);
    assert(z.len() == 1 && z[0] == 'Z');
    assert(zone_offset(z) == Some(0int));
}

/// For UTC timestamps written `YYYY-MM-DDTHH:MM:SSZ`, a record passes the
/// `since` filter exactly when its date and time are at or after those of
/// `since`, field by field from the year down to the second (which for this
/// fixed format is also their string order).
pub proof fn lemma_plain_utc_order(ts: Seq<char>, since: Seq<char>)
    requires
        plain_utc(ts),
        plain_utc(since),
    ensures
        timestamp_instant(ts) is Some,
        timestamp_instant(since) is Some,
        at_or_after(timestamp_instant(ts)->0, timestamp_instant(since)->0) == fields_at_or_after(
            clock_fields(ts),
            clock_fields(since),
        ),
{
    lemma_plain_utc_instant(ts);
    lemma_plain_utc_instant(since);
    let a = clock_fields(ts);
    let b = clock_fields(since);
    assert(is_digit(ts[0]) && is_digit(ts[1]) && is_digit(ts[2]) && is_digit(ts[3]));
    assert(is_digit(since[0]) && is_digit(since[1]) && is_digit(since[2]) && is_digit(since[3]));
    lemma_digits_bounds(ts, 0);
    lemma_digits_bounds(ts, 2);
    lemma_digits_bounds(since, 0);
    lemma_digits_bounds(since, 2);
    assert(is_digit(ts[11]) && is_digit(ts[12]) && is_digit(ts[14]) && is_digit(ts[15]));
    assert(is_digit(ts[17]) && is_digit(ts[18]));
    assert(is_digit(since[11]) && is_digit(since[12]) && is_digit(since[14]) && is_digit(since[15]));
    assert(is_digit(since[17]) && is_digit(since[18]));
    lemma_digits_bounds(ts, 11);
    lemma_digits_bounds(ts, 14);
    lemma_digits_bounds(ts, 17);
    lemma_digits_bounds(since, 11);
    lemma_digits_bounds(since, 14);
    lemma_digits_bounds(since, 17);
    let da = day_number(a.0, a.1, a.2);
    let db = day_number(b.0, b.1, b.2);
    let ta = a.3 * 3600 + a.4 * 60 + a.5;
    let tb = b.3 * 3600 + b.4 * 60 + b.5;
    assert(0 <= ta < 86400 && 0 <= tb < 86400);
    assert(!fraction_less(Seq::<char>::empty(), Seq::<char>::empty()));
    if (a.0, a.1, a.2) == (b.0, b.1, b.2) {
        assert(da == db);
    } else if fields_at_or_after((a.0, a.1, a.2, 0, 0, 0), (b.0, b.1, b.2, 0, 0, 0)) {
        lemma_day_order(a.0, a.1, a.2, b.0, b.1, b.2);
        assert(da * 86400 + ta > db * 86400 + tb) by (nonlinear_arith)
            requires da > db, 0 <= ta < 86400, 0 <= tb < 86400;
    } else {
        lemma_day_order(b.0, b.1, b.2, a.0, a.1, a.2);
        assert(db * 86400 + tb > da * 86400 + ta) by (nonlinear_arith)
            requires db > da, 0 <= ta < 86400, 0 <= tb < 86400;
    }
}


proof fn lemma_number_at_same(s: Seq<char>, t: Seq<char>, i: int, n: nat)
    requires
        forall|k: int| i <= k < i + n ==> s[k] == t[k],
    ensures
        number_at(s, i, n) == number_at(t, i, n),
    decreases n,
{
    if n > 0 {
        lemma_number_at_same(s, t, i, (n - 1) as nat);
    }
}

/// The whole seconds that the date and time of `s` denote, before any zone
/// offset.
pub open spec fn wall_seconds(s: Seq<char>) -> int {
    day_number(number_at(s, 0, 4), number_at(s, 5, 2), number_at(s, 8, 2)) * 86400 + number_at(
        s,
        11,
        2,
    ) * 3600 + number_at(s, 14, 2) * 60 + number_at(s, 17, 2)
}

proof fn lemma_same_clock(s: Seq<char>, t: Seq<char>)
    requires
        s.len() >= 20,
        t.len() >= 20,
        forall|k: int| 0 <= k < 19 ==> s[k] == t[k],
    ensures
        layout_ok(s) == layout_ok(t),
        fields_ok(s) == fields_ok(t),
        wall_seconds(s) == wall_seconds(t),
{
    lemma_number_at_same(s, t, 0, 4);
    lemma_number_at_same(s, t, 5, 2);
    lemma_number_at_same(s, t, 8, 2);
    lemma_number_at_same(s, t, 11, 2);
    lemma_number_at_same(s, t, 14, 2);
    lemma_number_at_same(s, t, 17, 2);
    assert(digits_at(s, 0, 4) == digits_at(t, 0, 4));
    assert(digits_at(s, 5, 2) == digits_at(t, 5, 2));
    assert(digits_at(s, 8, 2) == digits_at(t, 8, 2));
    assert(digits_at(s, 11, 2) == digits_at(t, 11, 2));
    assert(digits_at(s, 14, 2) == digits_at(t, 14, 2));
    assert(digits_at(s, 17, 2) == digits_at(t, 17, 2));
}

proof fn lemma_utc_instant(t: Seq<char>)
    requires
        layout_ok(t),
        fields_ok(t),
        t.len() == 20,
        t[19] == 'Z',
    ensures
        timestamp_instant(t) == Some(Instant { seconds: wall_seconds(t), fraction: Seq::empty() }),
{
    assert(zone_start(t) == 19);
    let z = t.subrange(19, 20);
    assert(z.len() == 1 && z[0] == 'Z');
}

/// A zone offset shifts the instant: the time `±HH:MM` denotes is that
/// wall-clock time in UTC moved back (for `+`) or forward (for `-`) by
/// `HH` hours and `MM` minutes.
#[verifier::rlimit(40)]
pub proof fn lemma_offset_shifts_instant(s: Seq<char>, t: Seq<char>)
    requires
        t.len() == 20,
        layout_ok(t),
        fields_ok(t),
        t[19] == 'Z',
        s.len() == 25,
        forall|k: int| 0 <= k < 19 ==> s[k] == t[k],
        s[19] == '+' || s[19] == '-',
        is_digit(s[20]) && is_digit(s[21]) && s[22] == ':' && is_digit(s[23]) && is_digit(s[24]),
        two_digits(s, 20) <= 23,
        two_digits(s, 23) <= 59,
    ensures
        timestamp_instant(s) is Some,
        timestamp_instant(s)->0.fraction.len() == 0,
        s[19] == '+' ==> timestamp_instant(s)->0.seconds == timestamp_instant(t)->0.seconds - (
        two_digits(s, 20) * 3600 + two_digits(s, 23) * 60),
        s[19] == '-' ==> timestamp_instant(s)->0.seconds == timestamp_instant(t)->0.seconds + (
        two_digits(s, 20) * 3600 + two_digits(s, 23) * 60),
{
    lemma_same_clock(s, t);
    lemma_utc_instant(t);
    assert(zone_start(s) == 19);
    let z = s.subrange(19, 25);
    assert(z[0] == s[19] && z[1] == s[20] && z[2] == s[21] && z[3] == s[22] && z[4] == s[23]
        && z[5] == s[24]);
    lemma_digits_bounds(z, 1);
    lemma_digits_bounds(z, 4);
    assert(two_digits(z, 1) == two_digits(s, 20));
    assert(two_digits(z, 4) == two_digits(s, 23));
    assert(digits_at(z, 1, 2) && digits_at(z, 4, 2));
    let off = two_digits(s, 20) * 3600 + two_digits(s, 23) * 60;
    if s[19] == '+' {
        assert(zone_offset(z) == Some(off));
    } else {
        assert(zone_offset(z) == Some(-off));
    }
    assert(timestamp_instant(s)->0.seconds == wall_seconds(s) - zone_offset(z)->0);
}

/// Whether the fraction digits `f` are all zeros.
pub open spec fn all_zeros(f: Seq<char>) -> bool {
    forall|k: int| 0 <= k < f.len() ==> digit_value(#[trigger] f[k]) == 0
}

proof fn lemma_fraction_vs_none(f: Seq<char>)
    requires
        forall|k: int| 0 <= k < f.len() ==> is_digit(#[trigger] f[k]),
    ensures
        !fraction_less(f, Seq::empty()),
        fraction_less(Seq::empty(), f) == !all_zeros(f),
    decreases f.len(),
{
    if f.len() > 0 {
        let r = f.drop_first();
        assert forall|k: int| 0 <= k < r.len() implies is_digit(#[trigger] r[k]) by {
            assert(r[k] == f[k + 1]);
        }
        lemma_fraction_vs_none(r);
        assert(is_digit(f[0]));
        let e = Seq::<char>::empty();
        assert(digit_value(f[0]) >= 0);
        assert(fraction_less(e, f) == (digit_value(f[0]) > 0 || (digit_value(f[0]) == 0
            && fraction_less(e, r))));
        assert(!fraction_less(f, e) == !(digit_value(f[0]) < 0 || (digit_value(f[0]) == 0
            && fraction_less(r, e))));
        if all_zeros(r) && digit_value(f[0]) == 0 {
            assert forall|k: int| 0 <= k < f.len() implies digit_value(#[trigger] f[k]) == 0 by {
                if k > 0 {
                    assert(f[k] == r[k - 1]);
                }
            }
        }
        if all_zeros(f) {
            assert(digit_value(f[0]) == 0);
            assert forall|k: int| 0 <= k < r.len() implies digit_value(#[trigger] r[k]) == 0 by {
                assert(r[k] == f[k + 1]);
            }
        }
    }
}

/// A fraction of a second never makes a time earlier: `HH:MM:SS.fffZ` is at
/// or after `HH:MM:SSZ`, in the same whole second, and at or before it only
/// when the fraction is all zeros.
pub proof fn lemma_fraction_after_whole_second(s: Seq<char>, t: Seq<char>)
    requires
        t.len() == 20,
        layout_ok(t),
        fields_ok(t),
        t[19] == 'Z',
        s.len() > 21,
        forall|k: int| 0 <= k < 19 ==> s[k] == t[k],
        s[19] == '.',
        forall|k: int| 20 <= k < s.len() - 1 ==> is_digit(#[trigger] s[k]),
        s[s.len() - 1] == 'Z',
    ensures
        timestamp_instant(s) is Some,
        timestamp_instant(s)->0.seconds == timestamp_instant(t)->0.seconds,
        timestamp_instant(s)->0.fraction == s.subrange(20, s.len() - 1),
        at_or_after(timestamp_instant(s)->0, timestamp_instant(t)->0),
        at_or_after(timestamp_instant(t)->0, timestamp_instant(s)->0) == all_zeros(
            s.subrange(20, s.len() - 1),
        ),
{
    lemma_same_clock(s, t);
    lemma_utc_instant(t);
    let n = s.len() - 21;
    lemma_digit_run(s, 20, s.len() - 1);
    assert(zone_start(s) == s.len() - 1);
    let z = s.subrange(s.len() - 1, s.len() as int);
    assert(z.len() == 1 && z[0] == 'Z');
    let f = s.subrange(20, s.len() - 1);
    assert forall|k: int| 0 <= k < f.len() implies is_digit(#[trigger] f[k]) by {
        assert(f[k] == s[k + 20]);
    }
    lemma_fraction_vs_none(f);
}

} // verus!

verus! {

/// `a` from position `i` on is before `b` from position `i` on, as text.
pub open spec fn suffix_lt(a: Seq<char>, b: Seq<char>, i: int) -> bool {
    text_lt(a.subrange(i, a.len() as int), b.subrange(i, b.len() as int))
}

proof fn lemma_suffix_lt_step(a: Seq<char>, b: Seq<char>, i: int)
    requires
        0 <= i < a.len(),
        a.len() == b.len(),
    ensures
        suffix_lt(a, b, i) == if a[i] != b[i] {
            (a[i] as u32) < (b[i] as u32)
        } else {
            suffix_lt(a, b, i + 1)
        },
{
    let x = a.subrange(i, a.len() as int);
    let y = b.subrange(i, b.len() as int);
    assert(x.drop_first() == a.subrange(i + 1, a.len() as int));
    assert(y.drop_first() == b.subrange(i + 1, b.len() as int));
}

proof fn lemma_char_code_injective(c: char, d: char)
    requires
        (c as u32) == (d as u32),
    ensures
        c == d,
{
}

proof fn lemma_suffix_lt_pair(a: Seq<char>, b: Seq<char>, i: int)
    requires
        0 <= i,
        i + 1 < a.len(),
        a.len() == b.len(),
        is_digit(a[i]),
        is_digit(a[i + 1]),
        is_digit(b[i]),
        is_digit(b[i + 1]),
    ensures
        suffix_lt(a, b, i) == (two_digits(a, i) < two_digits(b, i) || (two_digits(a, i)
            == two_digits(b, i) && suffix_lt(a, b, i + 2))),
{
    lemma_suffix_lt_step(a, b, i);
    lemma_suffix_lt_step(a, b, i + 1);
    let (x0, x1, y0, y1) = (digit_value(a[i]), digit_value(a[i + 1]), digit_value(b[i]),
        digit_value(b[i + 1]));
    assert(0 <= x0 <= 9 && 0 <= x1 <= 9 && 0 <= y0 <= 9 && 0 <= y1 <= 9);
    if a[i] != b[i] {
        if x0 == y0 {
            lemma_char_code_injective(a[i], b[i]);
        }
        assert((x0 < y0) == (x0 * 10 + x1 < y0 * 10 + y1));
    } else if a[i + 1] != b[i + 1] {
        if x1 == y1 {
            lemma_char_code_injective(a[i + 1], b[i + 1]);
        }
    } else {
        assert(x0 == y0 && x1 == y1);
    }
}

/// The date and time part of `s` (its first 19 characters) as a UTC
/// timestamp without a fraction.
pub open spec fn clock_part(s: Seq<char>) -> Seq<char> {
    s.subrange(0, 19).push('Z')
}

/// Two texts that begin with UTC dates and times in the same layout
/// compare as those dates and times do, and then by what follows them.
proof fn lemma_clock_text_order(a: Seq<char>, b: Seq<char>)
    requires
        a.len() == b.len(),
        a.len() >= 20,
        plain_utc(clock_part(a)),
        plain_utc(clock_part(b)),
        a[19] == b[19],
    ensures
        clock_fields(a) == clock_fields(clock_part(a)),
        clock_fields(b) == clock_fields(clock_part(b)),
        text_lt(a, b) == (!fields_at_or_after(clock_fields(a), clock_fields(b)) || (clock_fields(
            a,
        ) == clock_fields(b) && suffix_lt(a, b, 20))),
{
    let (ca, cb) = (clock_part(a), clock_part(b));
    assert forall|k: int| 0 <= k < 19 implies a[k] == #[trigger] ca[k] && b[k] == cb[k] by {}
    assert(a.subrange(0, a.len() as int) == a);
    assert(b.subrange(0, b.len() as int) == b);
    assert(is_digit(ca[0]) && is_digit(ca[1]) && is_digit(ca[2]) && is_digit(ca[3]));
    assert(is_digit(cb[0]) && is_digit(cb[1]) && is_digit(cb[2]) && is_digit(cb[3]));
    assert(is_digit(ca[5]) && is_digit(ca[6]) && is_digit(ca[8]) && is_digit(ca[9]));
    assert(is_digit(cb[5]) && is_digit(cb[6]) && is_digit(cb[8]) && is_digit(cb[9]));
    assert(is_digit(ca[11]) && is_digit(ca[12]) && is_digit(ca[14]) && is_digit(ca[15]));
    assert(is_digit(cb[11]) && is_digit(cb[12]) && is_digit(cb[14]) && is_digit(cb[15]));
    assert(is_digit(ca[17]) && is_digit(ca[18]) && is_digit(cb[17]) && is_digit(cb[18]));
    assert(ca[4] == cb[4] && ca[7] == cb[7] && ca[10] == cb[10] && ca[13] == cb[13] && ca[16]
        == cb[16]);
    assert(clock_fields(a) == clock_fields(ca));
    assert(clock_fields(b) == clock_fields(cb));
    lemma_digits_bounds(a, 0);
    lemma_digits_bounds(a, 2);
    lemma_digits_bounds(b, 0);
    lemma_digits_bounds(b, 2);
    lemma_suffix_lt_pair(a, b, 0);
    lemma_suffix_lt_pair(a, b, 2);
    lemma_suffix_lt_step(a, b, 4);
    lemma_suffix_lt_pair(a, b, 5);
    lemma_suffix_lt_step(a, b, 7);
    lemma_suffix_lt_pair(a, b, 8);
    lemma_suffix_lt_step(a, b, 10);
    lemma_suffix_lt_pair(a, b, 11);
    lemma_suffix_lt_step(a, b, 13);
    lemma_suffix_lt_pair(a, b, 14);
    lemma_suffix_lt_step(a, b, 16);
    lemma_suffix_lt_pair(a, b, 17);
    lemma_suffix_lt_step(a, b, 19);
}

/// For UTC timestamps written `YYYY-MM-DDTHH:MM:SSZ`, text order is time
/// order: `a` comes before `b` as text exactly when its date and time come
/// before those of `b`, field by field from the year down to the second.
pub proof fn lemma_plain_utc_text_order(a: Seq<char>, b: Seq<char>)
    requires
        plain_utc(a),
        plain_utc(b),
    ensures
        text_lt(a, b) == !fields_at_or_after(clock_fields(a), clock_fields(b)),
{
    assert(a.subrange(0, 19).push('Z') == a);
    assert(b.subrange(0, 19).push('Z') == b);
    lemma_clock_text_order(a, b);
    assert(a.subrange(20, 20) =~= Seq::<char>::empty());
    assert(b.subrange(20, 20) =~= Seq::<char>::empty());
    assert(!suffix_lt(a, b, 20));
}

/// Fractions of a second with the same number of digits are ordered as
/// their texts are.
pub proof fn lemma_fraction_text_order(a: Seq<char>, b: Seq<char>)
    requires
        a.len() == b.len(),
        forall|k: int| 0 <= k < a.len() ==> is_digit(#[trigger] a[k]),
        forall|k: int| 0 <= k < b.len() ==> is_digit(#[trigger] b[k]),
    ensures
        fraction_less(a, b) == text_lt(a, b),
    decreases a.len(),
{
    if a.len() > 0 {
        let (ra, rb) = (a.drop_first(), b.drop_first());
        assert forall|k: int| 0 <= k < ra.len() implies is_digit(#[trigger] ra[k]) by {
            assert(ra[k] == a[k + 1]);
        }
        assert forall|k: int| 0 <= k < rb.len() implies is_digit(#[trigger] rb[k]) by {
            assert(rb[k] == b[k + 1]);
        }
        lemma_fraction_text_order(ra, rb);
        assert(is_digit(a[0]) && is_digit(b[0]));
        if a[0] != b[0] && digit_value(a[0]) == digit_value(b[0]) {
            lemma_char_code_injective(a[0], b[0]);
        }
    }
}

/// `s` is a UTC timestamp with a real date and time (no leap second),
/// written `YYYY-MM-DDTHH:MM:SSZ` when `n` is 0 and
/// `YYYY-MM-DDTHH:MM:SS.<n digits>Z` otherwise.
pub open spec fn utc_form(s: Seq<char>, n: nat) -> bool {
    if n == 0 {
        plain_utc(s)
    } else {
        &&& s.len() == 21 + n
        &&& plain_utc(clock_part(s))
        &&& s[19] == '.'
        &&& forall|k: int| 20 <= k < 20 + n ==> is_digit(#[trigger] s[k])
        &&& s[20 + n as int] == 'Z'
    }
}

proof fn lemma_text_lt_push_same(x: Seq<char>, y: Seq<char>, z: char)
    requires
        x.len() == y.len(),
    ensures
        text_lt(x.push(z), y.push(z)) == text_lt(x, y),
    decreases x.len(),
{
    if x.len() > 0 {
        assert(x.push(z).drop_first() == x.drop_first().push(z));
        assert(y.push(z).drop_first() == y.drop_first().push(z));
        assert(x.push(z)[0] == x[0] && y.push(z)[0] == y[0]);
        lemma_text_lt_push_same(x.drop_first(), y.drop_first(), z);
    } else {
        assert(x.push(z).drop_first() =~= Seq::<char>::empty());
        assert(y.push(z).drop_first() =~= Seq::<char>::empty());
        assert(x.push(z)[0] == z && y.push(z)[0] == z);
        assert(!text_lt(Seq::<char>::empty(), Seq::<char>::empty()));
    }
}

proof fn lemma_fields_antisymmetric(
    a: (int, int, int, int, int, int),
    b: (int, int, int, int, int, int),
)
    ensures
        (fields_at_or_after(a, b) && fields_at_or_after(b, a)) == (a == b),
{
}

/// For UTC timestamps written in the same format (both without a
/// fraction, or both with fractions of the same number of digits), one is
/// at or after the other in time exactly when it is at or after it as
/// text.
pub proof fn lemma_utc_form_text_order(a: Seq<char>, b: Seq<char>, n: nat)
    requires
        utc_form(a, n),
        utc_form(b, n),
    ensures
        timestamp_instant(a) is Some,
        timestamp_instant(b) is Some,
        at_or_after(timestamp_instant(a)->0, timestamp_instant(b)->0) == !text_lt(a, b),
{
    if n == 0 {
        lemma_plain_utc_order(a, b);
        lemma_plain_utc_text_order(a, b);
    } else {
        let (ca, cb) = (clock_part(a), clock_part(b));
        lemma_plain_utc_instant(ca);
        lemma_plain_utc_instant(cb);
        assert forall|k: int| 0 <= k < 19 implies a[k] == #[trigger] ca[k] && b[k] == cb[k] by {}
        assert forall|k: int| 20 <= k < a.len() - 1 implies is_digit(#[trigger] a[k]) by {}
        assert forall|k: int| 20 <= k < b.len() - 1 implies is_digit(#[trigger] b[k]) by {}
        lemma_fraction_after_whole_second(a, ca);
        lemma_fraction_after_whole_second(b, cb);
        lemma_plain_utc_order(ca, cb);
        lemma_plain_utc_order(cb, ca);
        lemma_clock_text_order(a, b);
        lemma_fields_antisymmetric(clock_fields(a), clock_fields(b));
        let fa = a.subrange(20, 20 + n as int);
        let fb = b.subrange(20, 20 + n as int);
        assert(a.subrange(20, a.len() as int) == fa.push('Z'));
        assert(b.subrange(20, b.len() as int) == fb.push('Z'));
        lemma_text_lt_push_same(fa, fb, 'Z');
        assert forall|k: int| 0 <= k < fa.len() implies is_digit(#[trigger] fa[k]) by {
            assert(fa[k] == a[k + 20]);
        }
        assert forall|k: int| 0 <= k < fb.len() implies is_digit(#[trigger] fb[k]) by {
            assert(fb[k] == b[k + 20]);
        }
        lemma_fraction_text_order(fa, fb);
        assert(!fraction_less(Seq::<char>::empty(), Seq::<char>::empty()));
    }
}

} // verus!
