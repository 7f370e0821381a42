//! What the browser shows, computed without a terminal: index ledger lines,
//! UTC timestamps, and statistics over the memories in scope.

use vstd::prelude::*;
use crate::memory::{Library, Memory};
use crate::app::{is_index_memory, parent_dir, parent_of};
use crate::text::{
    append, chars_of, decimal, padded_decimal, split_once, split_once_chars,
    split_once_str, split_once_str_chars, string_of, strip_prefix, strip_prefix_chars,
    strip_suffix, strip_suffix_chars, trim, trim_chars, trim_start_by, trim_start_chars, zero_pad,
    Strip, chars_eq,
};

verus! {

// ------------------------------------------------------------------
// Index ledger lines
// ------------------------------------------------------------------

/// The title, slug and hook of an index line `- [Title](slug.md) — hook`;
/// the hook is optional and loses its leading dashes.
pub open spec fn index_entry(line: Seq<char>) -> Option<(Seq<char>, Seq<char>, Seq<char>)> {
    match strip_prefix(trim_start_by(line, Strip::Whitespace), seq!['-', ' ', '[']) {
        None => None,
        Some(rest) => match split_once_str(rest, seq![']', '(']) {
            None => None,
            Some((name, rest2)) => match split_once(rest2, ')') {
                None => None,
                Some((target, rest3)) => match strip_suffix(target, seq!['.', 'm', 'd']) {
                    None => None,
                    Some(slug) => Some(
                        (
                            name,
                            slug,
                            trim(trim_start_by(trim_start_by(rest3, Strip::Whitespace), Strip::Dash)),
                        ),
                    ),
                },
            },
        },
    }
}

/// `- [Title](file.md) — hook` -> (Title, file-stem, hook).  Hook is optional.
pub fn parse_index_line(line: &str) -> (res: Option<(String, String, String)>)
    ensures
        res matches Some((n, s, d)) ==> index_entry(line@) == Some((n@, s@, d@)),
        res is None ==> index_entry(line@) is None,
{
    let l = trim_start_chars(&chars_of(line), Strip::Whitespace);
    let open = vec!['-', ' ', '['];
    assert(open@ =~= seq!['-', ' ', '[']);
    let rest = match strip_prefix_chars(&l, &open) {
        Some(r) => r,
        None => {
            return None;
        },
    };
    let mid = vec![']', '('];
    assert(mid@ =~= seq![']', '(']);
    let (name, rest2) = match split_once_str_chars(&rest, &mid) {
        Some(p) => p,
        None => {
            return None;
        },
    };
    let (target, rest3) = match split_once_chars(&rest2, ')') {
        Some(p) => p,
        None => {
            return None;
        },
    };
    let md = vec!['.', 'm', 'd'];
    assert(md@ =~= seq!['.', 'm', 'd']);
    let slug = match strip_suffix_chars(&target, &md) {
        Some(s) => s,
        None => {
            return None;
        },
    };
    let h1 = trim_start_chars(&rest3, Strip::Whitespace);
    let h2 = trim_start_chars(&h1, Strip::Dash);
    let hook = trim_chars(&h2, Strip::Whitespace);
    Some((string_of(&name), string_of(&slug), string_of(&hook)))
}


// ------------------------------------------------------------------
// Calendar (proleptic Gregorian, UTC)
// ------------------------------------------------------------------

pub open spec fn is_leap(y: int) -> bool {
    (y % 4 == 0 && y % 100 != 0) || y % 400 == 0
}

pub open spec fn year_len(y: int) -> int {
    if is_leap(y) {
        366
    } else {
        365
    }
}

pub open spec fn month_len(y: int, m: int) -> int {
    if m == 2 {
        if is_leap(y) {
            29
        } else {
            28
        }
    } else if m == 4 || m == 6 || m == 9 || m == 11 {
        30
    } else {
        31
    }
}

/// Days in the months of year `y` before month `m`.
pub open spec fn days_before_month(y: int, m: int) -> int
    decreases m,
{
    if m <= 1 {
        0
    } else {
        days_before_month(y, m - 1) + month_len(y, m - 1)
    }
}

/// Days from 1970-01-01 to the first of January of year `y`.
pub open spec fn days_before_year(y: int) -> int
    decreases y - 1970,
{
    if y <= 1970 {
        0
    } else {
        days_before_year(y - 1) + year_len(y - 1)
    }
}

/// `y-m-d` is a valid date, `days` days after 1970-01-01.
pub open spec fn is_civil_date(days: int, y: int, m: int, d: int) -> bool {
    &&& y >= 1970
    &&& 1 <= m <= 12
    &&& 1 <= d <= month_len(y, m)
    &&& days_before_year(y) + days_before_month(y, m) + d - 1 == days
}

/// Leap years up to and including year `x`, counted from year 0.
pub open spec fn leaps(x: int) -> int {
    x / 4 - x / 100 + x / 400
}

proof fn lemma_leaps_step(x: int)
    requires
        x >= 1,
    ensures
        leaps(x) - leaps(x - 1) == (if is_leap(x) {
            1int
        } else {
            0int
        }),
{
    assert(x / 4 - (x - 1) / 4 == (if x % 4 == 0 {
        1int
    } else {
        0int
    })) by (nonlinear_arith)
        requires
            x >= 1,
    ;
    assert(x / 100 - (x - 1) / 100 == (if x % 100 == 0 {
        1int
    } else {
        0int
    })) by (nonlinear_arith)
        requires
            x >= 1,
    ;
    assert(x / 400 - (x - 1) / 400 == (if x % 400 == 0 {
        1int
    } else {
        0int
    })) by (nonlinear_arith)
        requires
            x >= 1,
    ;
    assert(x % 400 == 0 ==> x % 100 == 0 && x % 4 == 0) by (nonlinear_arith);
    assert(x % 100 == 0 ==> x % 4 == 0) by (nonlinear_arith);
}

/// The closed form of `days_before_year`.
pub proof fn lemma_days_before_year(y: int)
    requires
        y >= 1970,
    ensures
        days_before_year(y) == 365 * (y - 1970) + leaps(y - 1) - leaps(1969),
    decreases y - 1970,
{
    if y > 1970 {
        lemma_days_before_year(y - 1);
        lemma_leaps_step(y - 1);
    }
}

pub proof fn lemma_days_before_year_mono(a: int, b: int)
    requires
        1970 <= a <= b,
    ensures
        days_before_year(a) + 365 * (b - a) <= days_before_year(b),
    decreases b - a,
{
    if a < b {
        lemma_days_before_year_mono(a, b - 1);
    }
}

proof fn lemma_month_len(y: int, m: int)
    ensures
        28 <= month_len(y, m) <= 31,
{
}

pub proof fn lemma_days_before_month_mono(y: int, a: int, b: int)
    requires
        1 <= a <= b,
    ensures
        days_before_month(y, a) + 28 * (b - a) <= days_before_month(y, b),
    decreases b - a,
{
    if a < b {
        lemma_days_before_month_mono(y, a, b - 1);
        lemma_month_len(y, b - 1);
    }
}

/// The twelve months make up the year.
pub proof fn lemma_year_of_months(y: int)
    ensures
        days_before_month(y, 13) == year_len(y),
{
    reveal_with_fuel(days_before_month, 13);
}

/// Within its year a date lies before the next year starts.
pub proof fn lemma_within_year(y: int, m: int, d: int)
    requires
        1 <= m <= 12,
        1 <= d <= month_len(y, m),
    ensures
        days_before_month(y, m) + d - 1 < year_len(y),
{
    lemma_year_of_months(y);
    lemma_days_before_month_mono(y, m + 1, 13);
}

/// A day count names at most one date.
pub proof fn lemma_civil_date_unique(days: int, y1: int, m1: int, d1: int, y2: int, m2: int, d2: int)
    requires
        is_civil_date(days, y1, m1, d1),
        is_civil_date(days, y2, m2, d2),
    ensures
        y1 == y2 && m1 == m2 && d1 == d2,
{
    lemma_within_year(y1, m1, d1);
    lemma_within_year(y2, m2, d2);
    lemma_days_before_month_mono(y1, 1, m1);
    lemma_days_before_month_mono(y2, 1, m2);
    if y1 < y2 {
        assert(days_before_year(y1 + 1) == days_before_year(y1) + year_len(y1));
        lemma_days_before_year_mono(y1 + 1, y2);
        assert(false);
    } else if y2 < y1 {
        assert(days_before_year(y2 + 1) == days_before_year(y2) + year_len(y2));
        lemma_days_before_year_mono(y2 + 1, y1);
        assert(false);
    }
    if m1 < m2 {
        lemma_days_before_month_mono(y1, m1 + 1, m2);
        assert(false);
    } else if m2 < m1 {
        lemma_days_before_month_mono(y1, m2 + 1, m1);
        assert(false);
    }
}


/// The date `days` days after 1970-01-01.
pub open spec fn civil_date(days: int) -> (int, int, int) {
    choose|t: (int, int, int)| is_civil_date(days, t.0, t.1, t.2)
}

/// Days from 0000-03-01 to the first of March of year `y`.
pub open spec fn march_days(y: int) -> int {
    365 * y + y / 4 - y / 100 + y / 400
}

/// The year of a 400-year era in which its day `doe` falls, years starting
/// on the first of March.
pub open spec fn year_of_era(doe: int) -> int {
    (doe - doe / 1460 + doe / 36524 - doe / 146096) / 365
}

/// `year_of_era` is right for every day of an era.
proof fn lemma_yoe(doe: int)
    requires
        0 <= doe <= 146096,
    ensures
        0 <= year_of_era(doe) <= 399,
        march_days(year_of_era(doe)) <= doe < march_days(year_of_era(doe) + 1),
{
}

/// Every era of 400 years holds 146097 days.
proof fn lemma_march_era(e: int, k: int)
    requires
        e >= 0,
        k >= 0,
    ensures
        march_days(400 * e + k) == 146097 * e + march_days(k),
{
    assert((400 * e + k) / 4 == 100 * e + k / 4) by (nonlinear_arith)
        requires
            e >= 0,
            k >= 0,
    ;
    assert((400 * e + k) / 100 == 4 * e + k / 100) by (nonlinear_arith)
        requires
            e >= 0,
            k >= 0,
    ;
    assert((400 * e + k) / 400 == e + k / 400) by (nonlinear_arith)
        requires
            e >= 0,
            k >= 0,
    ;
}

/// A March-based year lasts 366 days when the February it holds has 29.
proof fn lemma_march_step(k: int)
    requires
        k >= 0,
    ensures
        march_days(k + 1) == march_days(k) + 365 + (if is_leap(k + 1) { 1int } else { 0int }),
{
    assert((k + 1) / 4 - k / 4 == (if (k + 1) % 4 == 0 { 1int } else { 0int })) by (nonlinear_arith)
        requires
            k >= 0,
    ;
    assert((k + 1) / 100 - k / 100 == (if (k + 1) % 100 == 0 { 1int } else { 0int })) by (nonlinear_arith)
        requires
            k >= 0,
    ;
    assert((k + 1) / 400 - k / 400 == (if (k + 1) % 400 == 0 { 1int } else { 0int })) by (nonlinear_arith)
        requires
            k >= 0,
    ;
    assert((k + 1) % 400 == 0 ==> (k + 1) % 100 == 0 && (k + 1) % 4 == 0) by (nonlinear_arith);
    assert((k + 1) % 100 == 0 ==> (k + 1) % 4 == 0) by (nonlinear_arith);
}

/// Every March-based year lasts at least 365 days.
proof fn lemma_march_mono(a: int, b: int)
    requires
        0 <= a <= b,
    ensures
        march_days(a) + 365 * (b - a) <= march_days(b),
    decreases b - a,
{
    if a < b {
        lemma_march_mono(a, b - 1);
        lemma_march_step(b - 1);
    }
}

/// January 1st of year `y` in days after 0000-03-01.
proof fn lemma_year_start(y: int)
    requires
        y >= 1970,
    ensures
        days_before_year(y) + 719468 == march_days(y - 1) + 306,
{
    lemma_days_before_year(y);
    assert(leaps(1969) == 477);
}

/// The days before each month of year `y`.
proof fn lemma_months(y: int)
    ensures
        days_before_month(y, 1) == 0,
        days_before_month(y, 2) == 31,
        days_before_month(y, 3) == 59 + (if is_leap(y) { 1int } else { 0int }),
        days_before_month(y, 4) == 90 + (if is_leap(y) { 1int } else { 0int }),
        days_before_month(y, 5) == 120 + (if is_leap(y) { 1int } else { 0int }),
        days_before_month(y, 6) == 151 + (if is_leap(y) { 1int } else { 0int }),
        days_before_month(y, 7) == 181 + (if is_leap(y) { 1int } else { 0int }),
        days_before_month(y, 8) == 212 + (if is_leap(y) { 1int } else { 0int }),
        days_before_month(y, 9) == 243 + (if is_leap(y) { 1int } else { 0int }),
        days_before_month(y, 10) == 273 + (if is_leap(y) { 1int } else { 0int }),
        days_before_month(y, 11) == 304 + (if is_leap(y) { 1int } else { 0int }),
        days_before_month(y, 12) == 334 + (if is_leap(y) { 1int } else { 0int }),
{
    reveal_with_fuel(days_before_month, 13);
}

/// The date that Howard Hinnant's `civil_from_days` computes for a day
/// count from 1970-01-01, through days counted from 0000-03-01.
pub open spec fn civil_from_days(days: int) -> (int, int, int) {
    let z = days + 719468;
    let era = z / 146097;
    let doe = z - era * 146097;
    let yoe = year_of_era(doe);
    let doy = doe - (365 * yoe + yoe / 4 - yoe / 100);
    let mp = (5 * doy + 2) / 153;
    let d = doy - (153 * mp + 2) / 5 + 1;
    let m = if mp < 10 { mp + 3 } else { mp - 9 };
    let y = yoe + era * 400 + if m <= 2 { 1int } else { 0int };
    (y, m, d)
}

/// The month of a day of a March-based year, and the days before it.
proof fn lemma_month_of_day(doy: int)
    requires
        0 <= doy <= 365,
    ensures
        ({
            let mp = (5 * doy + 2) / 153;
            let off = (153 * mp + 2) / 5;
            &&& 0 <= mp <= 11
            &&& off <= doy
            &&& mp < 11 ==> doy < (153 * (mp + 1) + 2) / 5
            &&& off == [0int, 31, 61, 92, 122, 153, 184, 214, 245, 275, 306, 337][mp]
        }),
{
}

/// Hinnant's computation gives the civil date of every day from 1970-01-01 on.
pub proof fn lemma_civil_from_days(days: int)
    requires
        days >= 0,
    ensures
        is_civil_date(
            days,
            civil_from_days(days).0,
            civil_from_days(days).1,
            civil_from_days(days).2,
        ),
{
    let z = days + 719468;
    let era = z / 146097;
    let doe = z - era * 146097;
    assert(era >= 0 && 0 <= doe <= 146096);
    lemma_yoe(doe);
    let yoe = year_of_era(doe);
    assert(yoe / 400 == 0);
    let doy = doe - (365 * yoe + yoe / 4 - yoe / 100);
    let big_y = 400 * era + yoe;
    lemma_march_era(era, yoe);
    lemma_march_era(era, yoe + 1);
    lemma_march_step(big_y);
    assert(doy == z - march_days(big_y));
    assert(0 <= doy < march_days(big_y + 1) - march_days(big_y));
    lemma_month_of_day(doy);
    let (y, m, d) = civil_from_days(days);
    if big_y <= 1968 {
        lemma_march_mono(big_y + 1, 1969);
        assert(false);
    }
    lemma_march_step(big_y - 1);
    if m <= 2 {
        lemma_year_start(big_y + 1);
        lemma_months(big_y + 1);
    } else {
        lemma_year_start(big_y);
        lemma_months(big_y);
    }
}

/// UNIX seconds to (year, month, day, hour, minute), UTC: Howard Hinnant's
/// `civil_from_days` on the day count, the rest of the day split into hours
/// and minutes.
pub fn civil_from_unix(secs: u64) -> (res: (i64, u32, u32, u32, u32))
    ensures
        is_civil_date(secs as int / 86400, res.0 as int, res.1 as int, res.2 as int),
        (res.0 as int, res.1 as int, res.2 as int) == civil_date(secs as int / 86400),
        res.3 == (secs % 86400) / 3600,
        res.4 == (secs % 86400) % 3600 / 60,
{
    let days: u64 = secs / 86400;
    let rem: u64 = secs % 86400;
    let z: u64 = days + 719_468;
    let era: u64 = z / 146_097;
    let doe: u64 = z - era * 146_097;
    proof {
        lemma_yoe(doe as int);
    }
    let yoe: u64 = (doe - doe / 1460 + doe / 36_524 - doe / 146_096) / 365;
    let doy: u64 = doe - (365 * yoe + yoe / 4 - yoe / 100);
    proof {
        lemma_civil_from_days(days as int);
        lemma_month_of_day(doy as int);
    }
    let mp: u64 = (5 * doy + 2) / 153;
    let d = (doy - (153 * mp + 2) / 5 + 1) as u32;
    let m = (if mp < 10 {
        mp + 3
    } else {
        mp - 9
    }) as u32;
    let y: i64 = yoe as i64 + era as i64 * 400 + if m <= 2 {
        1
    } else {
        0
    };
    proof {
        let t = civil_date(days as int);
        assert(is_civil_date(days as int, y as int, m as int, d as int));
        assert(is_civil_date(days as int, t.0, t.1, t.2));
        lemma_civil_date_unique(days as int, y as int, m as int, d as int, t.0, t.1, t.2);
    }
    (y, m, d, (rem / 3600) as u32, (rem % 3600 / 60) as u32)
}

/// `YYYY-MM-DD`
pub open spec fn date_text(y: int, m: int, d: int) -> Seq<char> {
    zero_pad(decimal(y as nat), 4) + seq!['-'] + zero_pad(decimal(m as nat), 2) + seq!['-']
        + zero_pad(decimal(d as nat), 2)
}

/// `YYYY-MM-DD HH:MM` of a UNIX time.
pub open spec fn timestamp_text(secs: int) -> Seq<char> {
    let t = civil_date(secs / 86400);
    date_text(t.0, t.1, t.2) + seq![' '] + zero_pad(decimal(((secs % 86400) / 3600) as nat), 2)
        + seq![':'] + zero_pad(decimal(((secs % 86400) % 3600 / 60) as nat), 2)
}

fn date_chars(y: i64, m: u32, d: u32) -> (res: Vec<char>)
    requires
        y >= 0,
    ensures
        res@ == date_text(y as int, m as int, d as int),
{
    let mut r = padded_decimal(y as u64, 4);
    r.push('-');
    append(&mut r, &padded_decimal(m as u64, 2));
    r.push('-');
    append(&mut r, &padded_decimal(d as u64, 2));
    assert(r@ =~= date_text(y as int, m as int, d as int));
    r
}

/// Unix secs -> `YYYY-MM-DD HH:MM` (UTC).
pub fn fmt_ts(secs: u64) -> (res: String)
    ensures
        res@ == timestamp_text(secs as int),
{
    let (y, mo, d, hh, mi) = civil_from_unix(secs);
    let mut r = date_chars(y, mo, d);
    r.push(' ');
    append(&mut r, &padded_decimal(hh as u64, 2));
    r.push(':');
    append(&mut r, &padded_decimal(mi as u64, 2));
    assert(r@ =~= timestamp_text(secs as int));
    string_of(&r)
}

/// Unix secs -> `YYYY-MM-DD` (UTC).
pub fn fmt_date(secs: u64) -> (res: String)
    ensures
        res@ == ({
            let t = civil_date(secs as int / 86400);
            date_text(t.0, t.1, t.2)
        }),
{
    let (y, mo, d, _hh, _mi) = civil_from_unix(secs);
    string_of(&date_chars(y, mo, d))
}


// ------------------------------------------------------------------
// Statistics over the memories in scope
// ------------------------------------------------------------------

/// The memories at `idxs` that are not index entries, in order.
pub open spec fn in_scope(mems: Seq<Memory>, idxs: Seq<usize>) -> Seq<Memory>
    decreases idxs.len(),
{
    if idxs.len() == 0 {
        Seq::empty()
    } else {
        let r = in_scope(mems, idxs.drop_last());
        let m = mems[idxs.last() as int];
        if is_index_memory(m) {
            r
        } else {
            r.push(m)
        }
    }
}

/// How many of `ms` have type `t`.
pub open spec fn count_type(ms: Seq<Memory>, t: Seq<char>) -> nat
    decreases ms.len(),
{
    if ms.len() == 0 {
        0
    } else {
        count_type(ms.drop_last(), t) + if ms.last().mtype@ == t {
            1nat
        } else {
            0nat
        }
    }
}

/// Created no more than `secs` seconds before `now` (a creation time in
/// the future counts as just now).
pub open spec fn created_within(m: Memory, now: u64, secs: int) -> bool {
    m.created matches Some(c) && (if now >= c {
        now - c
    } else {
        0
    }) <= secs
}

/// How many of `ms` were created within `secs` seconds of `now`.
pub open spec fn count_recent(ms: Seq<Memory>, now: u64, secs: int) -> nat
    decreases ms.len(),
{
    if ms.len() == 0 {
        0
    } else {
        count_recent(ms.drop_last(), now, secs) + if created_within(ms.last(), now, secs) {
            1nat
        } else {
            0nat
        }
    }
}

/// The earliest creation time among `ms`.
pub open spec fn oldest_created(ms: Seq<Memory>) -> Option<u64>
    decreases ms.len(),
{
    if ms.len() == 0 {
        None
    } else {
        let r = oldest_created(ms.drop_last());
        match (r, ms.last().created) {
            (Some(a), Some(b)) => Some(if b < a { b } else { a }),
            (None, Some(b)) => Some(b),
            (r, None) => r,
        }
    }
}

/// The latest creation time among `ms`.
pub open spec fn newest_created(ms: Seq<Memory>) -> Option<u64>
    decreases ms.len(),
{
    if ms.len() == 0 {
        None
    } else {
        let r = newest_created(ms.drop_last());
        match (r, ms.last().created) {
            (Some(a), Some(b)) => Some(if b > a { b } else { a }),
            (None, Some(b)) => Some(b),
            (r, None) => r,
        }
    }
}

/// Whether `m` is the memory that an index line in directory `dir` links
/// to as `slug`: it has that slug and lives in that directory.
pub open spec fn links_to(m: Memory, slug: Seq<char>, dir: Seq<char>) -> bool {
    m.slug@ == slug && parent_dir(m.path@) == dir
}

/// The first memory that an index line of directory `dir` links to as
/// `slug`, if any.
pub fn linked_memory(library: &Library, slug: &str, dir: &str) -> (res: Option<usize>)
    ensures
        res matches Some(i) ==> i < library.memories@.len() && links_to(
            library.memories@[i as int],
            slug@,
            dir@,
        ) && forall|j: int| 0 <= j < i ==> !links_to(#[trigger] library.memories@[j], slug@, dir@),
        res is None ==> forall|j: int|
            0 <= j < library.memories@.len() ==> !links_to(
                #[trigger] library.memories@[j],
                slug@,
                dir@,
            ),
{
    let want_slug = chars_of(slug);
    let want_dir = chars_of(dir);
    let mems = &library.memories;
    let mut i: usize = 0;
    while i < mems.len()
        invariant
            i <= mems@.len(),
            want_slug@ == slug@,
            want_dir@ == dir@,
            mems@ == library.memories@,
            forall|j: int| 0 <= j < i ==> !links_to(#[trigger] mems@[j], slug@, dir@),
        decreases mems@.len() - i,
    {
        let m = &mems[i];
        if chars_eq(&chars_of(m.slug.as_str()), &want_slug) && chars_eq(
            &chars_of(parent_of(&m.path).as_str()),
            &want_dir,
        ) {
            assert(links_to(mems@[i as int], slug@, dir@));
            return Some(i);
        }
        i += 1;
    }
    None
}

/// Counts and creation times of the memories in scope.
pub struct ScopeStats {
    /// Memories in scope that are not index entries.
    pub total: usize,
    /// Created in the last 7 days.
    pub new_7d: usize,
    /// Created in the last 30 days.
    pub new_30d: usize,
    pub oldest: Option<u64>,
    pub newest: Option<u64>,
}

fn is_index(m: &Memory) -> (res: bool)
    ensures
        res == is_index_memory(*m),
{
    chars_eq(&chars_of(m.mtype.as_str()), &chars_of("index"))
}

/// Memories among `idxs` that are not the `MEMORY.md` index entry.
pub fn real_count(library: &Library, idxs: &Vec<usize>) -> (n: usize)
    requires
        forall|k: int| 0 <= k < idxs@.len() ==> #[trigger] idxs@[k] < library.memories@.len(),
    ensures
        n == in_scope(library.memories@, idxs@).len(),
{
    let mut n: usize = 0;
    let mut i: usize = 0;
    while i < idxs.len()
        invariant
            i <= idxs@.len(),
            forall|k: int| 0 <= k < idxs@.len() ==> #[trigger] idxs@[k] < library.memories@.len(),
            n == in_scope(library.memories@, idxs@.take(i as int)).len(),
            n <= i,
        decreases idxs@.len() - i,
    {
        proof {
            assert(idxs@.take(i + 1).drop_last() =~= idxs@.take(i as int));
        }
        if !is_index(&library.memories[idxs[i]]) {
            n += 1;
        }
        i += 1;
    }
    proof {
        assert(idxs@.take(idxs@.len() as int) =~= idxs@);
    }
    n
}

/// How many memories in scope have the type `t`.
pub fn type_count(library: &Library, idxs: &Vec<usize>, t: &str) -> (n: usize)
    requires
        forall|k: int| 0 <= k < idxs@.len() ==> #[trigger] idxs@[k] < library.memories@.len(),
    ensures
        n == count_type(in_scope(library.memories@, idxs@), t@),
{
    let tv = chars_of(t);
    let mut n: usize = 0;
    let mut i: usize = 0;
    while i < idxs.len()
        invariant
            i <= idxs@.len(),
            tv@ == t@,
            forall|k: int| 0 <= k < idxs@.len() ==> #[trigger] idxs@[k] < library.memories@.len(),
            n == count_type(in_scope(library.memories@, idxs@.take(i as int)), t@),
            n <= in_scope(library.memories@, idxs@.take(i as int)).len(),
            in_scope(library.memories@, idxs@.take(i as int)).len() <= i,
        decreases idxs@.len() - i,
    {
        proof {
            assert(idxs@.take(i + 1).drop_last() =~= idxs@.take(i as int));
        }
        let m = &library.memories[idxs[i]];
        if !is_index(m) {
            if chars_eq(&chars_of(m.mtype.as_str()), &tv) {
                n += 1;
            }
            proof {
                let sc = in_scope(library.memories@, idxs@.take(i + 1));
                assert(sc.drop_last() =~= in_scope(library.memories@, idxs@.take(i as int)));
            }
        }
        i += 1;
    }
    proof {
        assert(idxs@.take(idxs@.len() as int) =~= idxs@);
    }
    n
}

/// Totals, recency and the span of creation times of the memories in scope.
pub fn scope_stats(library: &Library, idxs: &Vec<usize>, now: u64) -> (st: ScopeStats)
    requires
        forall|k: int| 0 <= k < idxs@.len() ==> #[trigger] idxs@[k] < library.memories@.len(),
    ensures
        st.total == in_scope(library.memories@, idxs@).len(),
        st.new_7d == count_recent(in_scope(library.memories@, idxs@), now, 7int * 86400),
        st.new_30d == count_recent(in_scope(library.memories@, idxs@), now, 30int * 86400),
        st.oldest == oldest_created(in_scope(library.memories@, idxs@)),
        st.newest == newest_created(in_scope(library.memories@, idxs@)),
{
    let mut st = ScopeStats { total: 0, new_7d: 0, new_30d: 0, oldest: None, newest: None };
    let mut i: usize = 0;
    while i < idxs.len()
        invariant
            i <= idxs@.len(),
            forall|k: int| 0 <= k < idxs@.len() ==> #[trigger] idxs@[k] < library.memories@.len(),
            ({
                let sc = in_scope(library.memories@, idxs@.take(i as int));
                &&& st.total == sc.len()
                &&& st.new_7d == count_recent(sc, now, 7int * 86400)
                &&& st.new_30d == count_recent(sc, now, 30int * 86400)
                &&& st.oldest == oldest_created(sc)
                &&& st.newest == newest_created(sc)
                &&& st.new_7d <= sc.len()
                &&& st.new_30d <= sc.len()
                &&& sc.len() <= i
            }),
        decreases idxs@.len() - i,
    {
        proof {
            assert(idxs@.take(i + 1).drop_last() =~= idxs@.take(i as int));
        }
        let m = &library.memories[idxs[i]];
        if !is_index(m) {
            proof {
                let sc = in_scope(library.memories@, idxs@.take(i + 1));
                assert(sc.drop_last() =~= in_scope(library.memories@, idxs@.take(i as int)));
            }
            st.total += 1;
            if let Some(c) = m.created {
                let age: u64 = now.saturating_sub(c);
                if age <= 7 * 86400 {
                    st.new_7d += 1;
                }
                if age <= 30 * 86400 {
                    st.new_30d += 1;
                }
                st.oldest = match st.oldest {
                    Some(a) => Some(if c < a { c } else { a }),
                    None => Some(c),
                };
                st.newest = match st.newest {
                    Some(a) => Some(if c > a { c } else { a }),
                    None => Some(c),
                };
            }
        }
        i += 1;
    }
    proof {
        assert(idxs@.take(idxs@.len() as int) =~= idxs@);
    }
    st
}

} // verus!
