use vstd::prelude::*;
use vstd::string::*;

verus! {

/// The decimal digit `d` as a character.
pub open spec fn digit_char(d: nat) -> char {
    if d == 0 { '0' } else if d == 1 { '1' } else if d == 2 { '2' } else if d == 3 { '3' } else if d == 4 {
        '4'
    } else if d == 5 { '5' } else if d == 6 { '6' } else if d == 7 { '7' } else if d == 8 { '8' } else {
        '9'
    }
}

/// The decimal form of `n`, without leading zeros.
pub open spec fn decimal(n: nat) -> Seq<char>
    decreases n,
{
    if n < 10 {
        seq![digit_char(n)]
    } else {
        decimal(n / 10) + seq![digit_char(n % 10)]
    }
}

/// `count` copies of `c`.
pub open spec fn repeat(c: char, count: nat) -> Seq<char>
    decreases count,
{
    if count == 0 {
        Seq::empty()
    } else {
        repeat(c, (count - 1) as nat).push(c)
    }
}

/// `s` right-aligned in `width` columns, filled with `fill`.
pub open spec fn pad_left(s: Seq<char>, width: nat, fill: char) -> Seq<char> {
    if s.len() < width {
        repeat(fill, (width - s.len()) as nat) + s
    } else {
        s
    }
}

/// `value / unit` rounded to tenths, a tie going to the even neighbour.
pub open spec fn tenths(value: nat, unit: nat) -> nat
    recommends
        unit > 0,
{
    let q = (value * 10) / unit;
    let r = (value * 10) % unit;
    if 2 * r > unit || (2 * r == unit && q % 2 == 1) {
        q + 1
    } else {
        q
    }
}

/// `value / unit` with one decimal.
pub open spec fn one_decimal(value: nat, unit: nat) -> Seq<char> {
    let t = tenths(value, unit);
    decimal(t / 10) + seq!['.'] + decimal(t % 10)
}

/// A byte count in five columns or more: bytes below 1 KiB, else KiB, MiB
/// or GiB with one decimal; blank when unknown.
pub open spec fn size_text(size: Option<u64>) -> Seq<char> {
    match size {
        None => repeat(' ', 5),
        Some(s) => if s < 1024 {
            pad_left(decimal(s as nat), 4, ' ') + seq!['B']
        } else if s < 1024 * 1024 {
            pad_left(one_decimal(s as nat, 1024), 4, ' ') + seq!['K']
        } else if s < 1024 * 1024 * 1024 {
            pad_left(one_decimal(s as nat, 1048576), 4, ' ') + seq!['M']
        } else {
            pad_left(one_decimal(s as nat, 1073741824), 4, ' ') + seq!['G']
        },
    }
}

fn digit_str(d: u64) -> (r: &'static str)
    requires
        d < 10,
    ensures
        r@ == seq![digit_char(d as nat)],
{
    proof {
        reveal_strlit("0");
        reveal_strlit("1");
        reveal_strlit("2");
        reveal_strlit("3");
        reveal_strlit("4");
        reveal_strlit("5");
        reveal_strlit("6");
        reveal_strlit("7");
        reveal_strlit("8");
        reveal_strlit("9");
    }
    if d == 0 { "0" } else if d == 1 { "1" } else if d == 2 { "2" } else if d == 3 { "3" } else if d == 4 {
        "4"
    } else if d == 5 { "5" } else if d == 6 { "6" } else if d == 7 { "7" } else if d == 8 { "8" } else {
        "9"
    }
}

/// The decimal form of `n`.
pub fn decimal_text(n: u64) -> (r: String)
    ensures
        r@ == decimal(n as nat),
    decreases n,
{
    if n < 10 {
        String::from_str(digit_str(n))
    } else {
        let mut s = decimal_text(n / 10);
        s.append(digit_str(n % 10));
        s
    }
}

/// `s` right-aligned in `width` columns, filled with `fill` (a one-character string).
fn pad_text(s: String, width: usize, fill: &str) -> (r: String)
    requires
        fill@.len() == 1,
    ensures
        r@ == pad_left(s@, width as nat, fill@[0]),
{
    let n = s.as_str().unicode_len();
    if n >= width {
        return s;
    }
    let mut out = String::new();
    let mut i: usize = 0;
    while i < width - n
        invariant
            n < width,
            i <= width - n,
            fill@.len() == 1,
            out@ == repeat(fill@[0], i as nat),
        decreases width - n - i,
    {
        let ghost before = out@;
        out.append(fill);
        assert(out@ == before + fill@);
        assert(fill@ =~= seq![fill@[0]]);
        i = i + 1;
    }
    out.append(s.as_str());
    out
}

fn tenths_exec(value: u64, unit: u64) -> (r: u64)
    requires
        unit >= 1024,
    ensures
        r == tenths(value as nat, unit as nat),
{
    let v: u128 = (value as u128) * 10;
    let q: u128 = v / (unit as u128);
    let rem: u128 = v % (unit as u128);
    assert(q <= v);
    let t: u128 = if 2 * rem > unit as u128 || (2 * rem == unit as u128 && q % 2 == 1) { q + 1 } else { q };
    assert(t <= u64::MAX as u128) by {
        vstd::arithmetic::div_mod::lemma_div_is_ordered_by_denominator(v as int, 1024, unit as int);
        assert(v <= 10 * (u64::MAX as u128));
    }
    t as u64
}

fn one_decimal_text(value: u64, unit: u64) -> (r: String)
    requires
        unit >= 1024,
    ensures
        r@ == one_decimal(value as nat, unit as nat),
{
    let t = tenths_exec(value, unit);
    let mut s = decimal_text(t / 10);
    proof {
        reveal_strlit(".");
    }
    s.append(".");
    let tail = decimal_text(t % 10);
    s.append(tail.as_str());
    s
}

/// A byte count in five columns or more: bytes below 1 KiB, else KiB, MiB
/// or GiB with one decimal (a tie rounds to even); blank when unknown.
pub fn format_file_size(size: Option<u64>) -> (r: String)
    ensures
        r@ == size_text(size),
{
    proof {
        reveal_strlit(" ");
        reveal_strlit("     ");
        reveal_strlit("B");
        reveal_strlit("K");
        reveal_strlit("M");
        reveal_strlit("G");
        assert(repeat(' ', 5) =~= "     "@) by {
            reveal_with_fuel(repeat, 6);
        }
    }
    match size {
        None => String::from_str("     "),
        Some(s) => {
            let (number, unit) = if s < 1024 {
                (decimal_text(s), "B")
            } else if s < 1024 * 1024 {
                (one_decimal_text(s, 1024), "K")
            } else if s < 1024 * 1024 * 1024 {
                (one_decimal_text(s, 1024 * 1024), "M")
            } else {
                (one_decimal_text(s, 1024 * 1024 * 1024), "G")
            };
            let mut text = pad_text(number, 4, " ");
            text.append(unit);
            text
        },
    }
}

/// Whether `year` has 366 days.
pub open spec fn leap(year: nat) -> bool {
    (year % 4 == 0 && year % 100 != 0) || year % 400 == 0
}

pub fn is_leap_year(year: u64) -> (r: bool)
    ensures
        r == leap(year as nat),
{
    (year % 4 == 0 && year % 100 != 0) || (year % 400 == 0)
}

pub open spec fn year_days(year: nat) -> nat {
    if leap(year) {
        366
    } else {
        365
    }
}

/// The year that day `rem` counted from the start of `year` falls in, and
/// the day within it.
pub open spec fn split_years(rem: nat, year: nat) -> (nat, nat)
    decreases rem,
{
    if rem >= year_days(year) {
        split_years((rem - year_days(year)) as nat, year + 1)
    } else {
        (year, rem)
    }
}

pub open spec fn month_days(leap_year: bool, month: nat) -> nat {
    if month == 1 {
        if leap_year {
            29
        } else {
            28
        }
    } else if month == 3 || month == 5 || month == 8 || month == 10 {
        30
    } else {
        31
    }
}

/// The month (counted from 0) that day `rem` of the year falls in, starting
/// the count at month `m`, and the day within it.
pub open spec fn split_months(leap_year: bool, rem: nat, m: nat) -> (nat, nat)
    decreases 12 - m,
{
    if m < 12 && rem >= month_days(leap_year, m) {
        split_months(leap_year, (rem - month_days(leap_year, m)) as nat, m + 1)
    } else {
        (m, rem)
    }
}

/// Seconds since the epoch moved by a time-zone offset, kept within `u64`.
pub open spec fn shifted(t: u64, offset: i64) -> nat {
    let s = t as int + offset as int;
    if s < 0 {
        0
    } else if s > u64::MAX {
        u64::MAX as nat
    } else {
        s as nat
    }
}

pub open spec fn month_name(m: nat) -> Seq<char> {
    if m == 0 { "Jan"@ } else if m == 1 { "Feb"@ } else if m == 2 { "Mar"@ } else if m == 3 { "Apr"@ }
    else if m == 4 { "May"@ } else if m == 5 { "Jun"@ } else if m == 6 { "Jul"@ } else if m == 7 { "Aug"@ }
    else if m == 8 { "Sep"@ } else if m == 9 { "Oct"@ } else if m == 10 { "Nov"@ } else { "Dec"@ }
}

/// A modification time in eleven columns, in local time (`offset` seconds
/// east of UTC): month, day and time of day within the year of `now`
/// (counted in 365-day years from 1970), else month, day and year; blank
/// when unknown.
pub open spec fn time_text(time: Option<u64>, now: u64, offset: i64) -> Seq<char> {
    match time {
        None => repeat(' ', 11),
        Some(t) => {
            let local = shifted(t, offset);
            let (year, rem) = split_years(local / 86400, 1970);
            let (m, d) = split_months(leap(year), rem, 0);
            let secs = local % 86400;
            let current_year = 1970 + shifted(now, offset) / (365 * 86400);
            let head = month_name(m) + seq![' '] + pad_left(decimal(d + 1), 2, ' ');
            if year == current_year {
                head + seq![' '] + pad_left(decimal(secs / 3600), 2, '0') + seq![':'] + pad_left(
                    decimal((secs % 3600) / 60),
                    2,
                    '0',
                )
            } else {
                head + seq![' ', ' '] + pad_left(decimal(year), 4, '0')
            }
        },
    }
}

fn shift_exec(t: u64, offset: i64) -> (r: u64)
    ensures
        r as nat == shifted(t, offset),
{
    if offset >= 0 {
        let o = offset as u64;
        if t > u64::MAX - o {
            u64::MAX
        } else {
            t + o
        }
    } else {
        let o = (0i128 - offset as i128) as u64;
        if o >= t {
            0
        } else {
            t - o
        }
    }
}

fn month_name_text(m: u64) -> (r: &'static str)
    ensures
        r@ == month_name(m as nat),
{
    if m == 0 { "Jan" } else if m == 1 { "Feb" } else if m == 2 { "Mar" } else if m == 3 { "Apr" }
    else if m == 4 { "May" } else if m == 5 { "Jun" } else if m == 6 { "Jul" } else if m == 7 { "Aug" }
    else if m == 8 { "Sep" } else if m == 9 { "Oct" } else if m == 10 { "Nov" } else { "Dec" }
}

fn month_days_exec(leap_year: bool, month: u64) -> (r: u64)
    ensures
        r == month_days(leap_year, month as nat),
{
    if month == 1 {
        if leap_year { 29 } else { 28 }
    } else if month == 3 || month == 5 || month == 8 || month == 10 {
        30
    } else {
        31
    }
}

/// A modification time (seconds since the epoch) in eleven columns, in
/// local time `offset` seconds east of UTC, judged against the current time
/// `now`; blank when unknown.
pub fn format_modified_time(time: Option<u64>, now: u64, offset: i64) -> (r: String)
    ensures
        r@ == time_text(time, now, offset),
{
    proof {
        reveal_strlit(" ");
        reveal_strlit("  ");
        reveal_strlit("0");
        reveal_strlit(":");
        reveal_strlit("           ");
        assert(repeat(' ', 11) =~= "           "@) by {
            reveal_with_fuel(repeat, 12);
        }
    }
    let t = match time {
        None => {
            return String::from_str("           ");
        },
        Some(t) => t,
    };
    let local = shift_exec(t, offset);
    let local_now = shift_exec(now, offset);
    let mut year: u64 = 1970;
    let mut rem: u64 = local / 86400;
    let mut days: u64 = if is_leap_year(year) { 366 } else { 365 };
    while rem >= days
        invariant
            days as nat == year_days(year as nat),
            split_years(rem as nat, year as nat) == split_years((local / 86400) as nat, 1970),
            year as int + rem as int <= 1970 + (local / 86400) as int,
        decreases rem,
    {
        rem = rem - days;
        year = year + 1;
        days = if is_leap_year(year) { 366 } else { 365 };
    }
    let leap_year = is_leap_year(year);
    assert(rem < 366);
    let mut m: u64 = 0;
    while m < 12 && rem >= month_days_exec(leap_year, m)
        invariant
            m <= 12,
            split_months(leap_year, rem as nat, m as nat) == split_months(leap(year as nat), rem as nat + 0, m as nat),
            split_months(leap_year, rem as nat, m as nat) == split_months(
                leap(split_years((local / 86400) as nat, 1970).0),
                split_years((local / 86400) as nat, 1970).1,
                0,
            ),
            leap_year == leap(year as nat),
            rem < 366,
        decreases 12 - m,
    {
        rem = rem - month_days_exec(leap_year, m);
        m = m + 1;
    }
    let secs = local % 86400;
    let current_year = 1970 + local_now / (365 * 86400);
    let mut text = String::from_str(month_name_text(m));
    text.append(" ");
    let day = pad_text(decimal_text(rem + 1), 2, " ");
    text.append(day.as_str());
    if year == current_year {
        text.append(" ");
        let hours = pad_text(decimal_text(secs / 3600), 2, "0");
        text.append(hours.as_str());
        text.append(":");
        let minutes = pad_text(decimal_text((secs % 3600) / 60), 2, "0");
        text.append(minutes.as_str());
    } else {
        text.append("  ");
        let y = pad_text(decimal_text(year), 4, "0");
        text.append(y.as_str());
    }
    text
}

/// `path` cut to `max_width` characters by replacing its middle with
/// `...`; `...` alone when fewer than three fit.
pub open spec fn truncated(path: Seq<char>, max_width: nat) -> Seq<char> {
    if path.len() <= max_width {
        path
    } else if max_width < 3 {
        "..."@
    } else {
        let start = ((max_width - 3) / 2) as int;
        let end = (max_width - 3 - start) as int;
        path.take(start) + "..."@ + path.skip(path.len() - end)
    }
}

/// `path` cut to `max_width` characters by replacing its middle with `...`.
pub fn truncate_path(path: &str, max_width: usize) -> (r: String)
    ensures
        r@ == truncated(path@, max_width as nat),
{
    let len = path.unicode_len();
    if len <= max_width {
        return String::from_str(path);
    }
    if max_width < 3 {
        return String::from_str("...");
    }
    let start = (max_width - 3) / 2;
    let end = max_width - 3 - start;
    let mut s = String::from_str(path.substring_char(0, start));
    s.append("...");
    s.append(path.substring_char(len - end, len));
    proof {
        assert(path@.subrange(0, start as int) =~= path@.take(start as int));
        assert(path@.subrange(len - end, len as int) =~= path@.skip(path@.len() - end));
    }
    s
}

} // verus!
