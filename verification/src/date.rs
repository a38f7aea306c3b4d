//! Calendar arithmetic and the ISO-8601 timestamps that ESI returns
//! (`YYYY-MM-DDTHH:MM:SSZ` and `YYYY-MM-DDTHH:MM:SS±HH:MM`).
use vstd::prelude::*;
use crate::text::{
    all_digits, chars_of, digit_val, digits_value, is_digit, parse_i64_chars, parse_i64_spec, parse_u32_chars,
    parse_unsigned, seq_views, slice_range, split, split_chars, trim, trim_chars,
};

verus! {

/// Days before the first of each month, in a common and in a leap year.
pub open spec fn cum_days(leap: bool, month: int) -> int {
    if leap {
        if month == 1 { 0 } else if month == 2 { 31 } else if month == 3 { 60 } else if month == 4 { 91 }
        else if month == 5 { 121 } else if month == 6 { 152 } else if month == 7 { 182 }
        else if month == 8 { 213 } else if month == 9 { 244 } else if month == 10 { 274 }
        else if month == 11 { 305 } else { 335 }
    } else {
        if month == 1 { 0 } else if month == 2 { 31 } else if month == 3 { 59 } else if month == 4 { 90 }
        else if month == 5 { 120 } else if month == 6 { 151 } else if month == 7 { 181 }
        else if month == 8 { 212 } else if month == 9 { 243 } else if month == 10 { 273 }
        else if month == 11 { 304 } else { 334 }
    }
}

pub open spec fn is_leap_year(y: int) -> bool {
    (y % 4 == 0 && y % 100 != 0) || y % 400 == 0
}

/// Days from 0001-01-01 to the first day of year `y` (proleptic Gregorian).
pub open spec fn days_before_year(y: int) -> int {
    let prev = y - 1;
    prev * 365 + prev / 4 - prev / 100 + prev / 400
}

/// Days since 1970-01-01 of a year/month/day; `None` unless `year >= 1`,
/// `1 <= month <= 12` and `day >= 1` (the day is not checked against the month's length).
pub open spec fn ymd_days(year: int, month: int, day: int) -> Option<int> {
    if year < 1 || month < 1 || month > 12 || day < 1 {
        None
    } else {
        Some(days_before_year(year) + cum_days(is_leap_year(year), month) + (day - 1) - 719_162)
    }
}

/// The number of days of a month (February has 29 in a leap year).
pub open spec fn days_in_month(leap: bool, month: int) -> int {
    if month == 2 {
        if leap {
            29
        } else {
            28
        }
    } else if month == 4 || month == 6 || month == 9 || month == 11 {
        30
    } else {
        31
    }
}

/// Law: the day after the last day of a month is the first day of the next
/// month, and the day after 31 December is 1 January of the next year.
pub proof fn lemma_month_after_month(year: int, month: int)
    requires
        year >= 1,
        1 <= month <= 12,
    ensures
        month < 12 ==> ymd_days(year, month, days_in_month(is_leap_year(year), month))->0 + 1
            == ymd_days(year, month + 1, 1)->0,
        month == 12 ==> ymd_days(year, 12, 31)->0 + 1 == ymd_days(year + 1, 1, 1)->0,
{
    if month == 12 {
        let leap = is_leap_year(year);
        assert(days_before_year(year + 1) - days_before_year(year) == 365 + if leap { 1int } else { 0int }) by {
            let p = year - 1;
            assert(year / 4 - p / 4 == if year % 4 == 0 { 1int } else { 0int });
            assert(year / 100 - p / 100 == if year % 100 == 0 { 1int } else { 0int });
            assert(year / 400 - p / 400 == if year % 400 == 0 { 1int } else { 0int });
        }
    }
}

/// Law: day numbers count from 1 January 1970.
pub proof fn lemma_epoch_day()
    ensures
        ymd_days(1970, 1, 1) == Some(0int),
{
}

fn cum_days_exec(leap: bool, month: i32) -> (r: i64)
    requires
        1 <= month <= 12,
    ensures
        r == cum_days(leap, month as int),
        0 <= r <= 335,
{
    let common: [i64; 12] = [0, 31, 59, 90, 120, 151, 181, 212, 243, 273, 304, 334];
    let leapt: [i64; 12] = [0, 31, 60, 91, 121, 152, 182, 213, 244, 274, 305, 335];
    let m = (month - 1) as usize;
    if leap {
        leapt[m]
    } else {
        common[m]
    }
}

/// Convert year/month/day to days since the Unix epoch.
pub fn ymd_to_days(year: i32, month: i32, day: i32) -> (r: Option<i64>)
    ensures
        match r {
            Some(d) => ymd_days(year as int, month as int, day as int) == Some(d as int),
            None => ymd_days(year as int, month as int, day as int) is None,
        },
        r matches Some(d) ==> -719_162 <= d <= 800_000_000_000,
{
    if year < 1 || month < 1 || month > 12 || day < 1 {
        return None;
    }
    let y = year as i64;
    let prev = y - 1;
    let leaps = prev / 4 - prev / 100 + prev / 400;
    let dby = prev * 365 + leaps;
    let is_leap = (y % 4 == 0 && y % 100 != 0) || y % 400 == 0;
    let doy = cum_days_exec(is_leap, month) + (day as i64 - 1);
    proof {
        assert(0 <= leaps <= prev);
    }
    Some(dby + doy - 719_162)
}

// ---------------------------------------------------------------------------
// ISO-8601 timestamps
// ---------------------------------------------------------------------------

/// UTF-8 width of a character.
pub open spec fn utf8_width(c: char) -> nat {
    let u = c as u32;
    if u < 0x80 {
        1
    } else if u < 0x800 {
        2
    } else if u < 0x10000 {
        3
    } else {
        4
    }
}

/// UTF-8 length in bytes of a character sequence.
pub open spec fn byte_len(s: Seq<char>) -> nat
    decreases s.len(),
{
    if s.len() == 0 {
        0
    } else {
        byte_len(s.drop_last()) + utf8_width(s.last())
    }
}

/// Index of the last occurrence of `c` in `s`, or -1 (`str::rfind` by character).
pub open spec fn last_index(s: Seq<char>, c: char) -> int
    decreases s.len(),
{
    if s.len() == 0 {
        -1
    } else if s.last() == c {
        s.len() - 1
    } else {
        last_index(s.drop_last(), c)
    }
}

/// The values of the pieces that parse as `u32`, in order (`filter_map(parse)`).
pub open spec fn parsed_u32s(parts: Seq<Seq<char>>) -> Seq<nat>
    decreases parts.len(),
{
    if parts.len() == 0 {
        Seq::empty()
    } else {
        let prev = parsed_u32s(parts.drop_last());
        match parse_unsigned(parts.last(), u32::MAX as nat) {
            Some(v) => prev.push(v),
            None => prev,
        }
    }
}

/// Split the time part of a timestamp into the clock text and the UTC offset in
/// minutes: a trailing `Z`, or a `+HH:MM`/`-HH:MM` suffix starting more than two
/// bytes in (the last `+`, or if there is none the last `-`). `None` when such a
/// suffix is present but malformed.
pub open spec fn split_offset(t: Seq<char>) -> Option<(Seq<char>, int)> {
    if t.len() > 0 && t.last() == 'Z' {
        Some((t.drop_last(), 0))
    } else {
        let idx = if last_index(t, '+') >= 0 {
            last_index(t, '+')
        } else {
            last_index(t, '-')
        };
        if idx >= 0 && byte_len(t.take(idx)) > 2 {
            let after = t.skip(idx + 1);
            if after.len() >= 5 && after[2] == ':' {
                match (parse_i64_spec(after.take(2)), parse_i64_spec(after.subrange(3, 5))) {
                    (Some(h), Some(m)) => {
                        let off = h * 60 + m;
                        Some((t.take(idx), if t[idx] == '-' { -off } else { off }))
                    },
                    _ => None,
                }
            } else {
                None
            }
        } else {
            Some((t, 0))
        }
    }
}

pub open spec fn null_text() -> Seq<char> {
    seq!['n', 'u', 'l', 'l']
}

/// Unix seconds of an ISO-8601 date-time as the ESI client reads it: the text is
/// trimmed; the date is the part before the first `T`, whose `-`-separated
/// pieces that parse as numbers must be exactly year, month and day; the clock is
/// the part after it up to any further `T`, with the offset taken off by
/// `split_offset`, and its first three `:`-separated numbers are hour, minute and
/// second. Times before the epoch give 0.
pub open spec fn iso_unix(input: Seq<char>) -> Option<u64> {
    let s = trim(input);
    if s.len() == 0 || s == null_text() {
        None
    } else {
        let parts = split(s, 'T');
        if parts.len() < 2 {
            None
        } else {
            let date = parsed_u32s(split(parts[0], '-'));
            if date.len() != 3 {
                None
            } else {
                match split_offset(parts[1]) {
                    None => None,
                    Some((clock, tz)) => {
                        let tp = parsed_u32s(split(clock, ':'));
                        if tp.len() < 3 || date[0] > i32::MAX || date[1] > i32::MAX || date[2]
                            > i32::MAX {
                            None
                        } else {
                            match ymd_days(date[0] as int, date[1] as int, date[2] as int) {
                                None => None,
                                Some(days) => {
                                    let secs = days * 86_400 + tp[0] * 3_600 + tp[1] * 60
                                        + tp[2];
                                    let adj = secs - tz * 60;
                                    Some(
                                        if adj < 0 {
                                            0
                                        } else {
                                            adj as u64
                                        },
                                    )
                                },
                            }
                        }
                    },
                }
            }
        }
    }
}

fn utf8_width_exec(c: char) -> (w: usize)
    ensures
        w == utf8_width(c),
{
    let u = c as u32;
    if u < 0x80 {
        1
    } else if u < 0x800 {
        2
    } else if u < 0x10000 {
        3
    } else {
        4
    }
}

/// Whether the first `k` characters of `t` take more than `limit` bytes.
fn prefix_bytes_exceed(t: &[char], k: usize, limit: usize) -> (b: bool)
    requires
        k <= t@.len(),
        limit < 100,
    ensures
        b == (byte_len(t@.take(k as int)) > limit),
{
    let mut total: usize = 0;
    let mut i: usize = 0;
    while i < k
        invariant
            i <= k <= t@.len(),
            limit < 100,
            total == byte_len(t@.take(i as int)),
            total <= limit,
        decreases k - i,
    {
        proof {
            assert(t@.take(i as int + 1).drop_last() =~= t@.take(i as int));
        }
        total = total + utf8_width_exec(t[i]);
        if total > limit {
            proof {
                lemma_byte_len_prefix_mono(t@, i as int + 1, k as int);
            }
            return true;
        }
        i = i + 1;
    }
    false
}

proof fn lemma_byte_len_prefix_mono(s: Seq<char>, a: int, b: int)
    requires
        0 <= a <= b <= s.len(),
    ensures
        byte_len(s.take(a)) <= byte_len(s.take(b)),
    decreases b - a,
{
    if a < b {
        assert(s.take(b).drop_last() =~= s.take(b - 1));
        lemma_byte_len_prefix_mono(s, a, b - 1);
    }
}

pub fn last_index_exec(t: &[char], c: char) -> (r: Option<usize>)
    ensures
        match r {
            Some(i) => last_index(t@, c) == i as int,
            None => last_index(t@, c) == -1,
        },
{
    let mut i: usize = t.len();
    proof {
        assert(t@.take(t@.len() as int) =~= t@);
    }
    while i > 0
        invariant
            i <= t@.len(),
            last_index(t@, c) == last_index(t@.take(i as int), c),
        decreases i,
    {
        proof {
            assert(t@.take(i as int).drop_last() =~= t@.take(i as int - 1));
        }
        if t[i - 1] == c {
            return Some(i - 1);
        }
        i = i - 1;
    }
    proof {
        assert(t@.take(0) =~= Seq::<char>::empty());
        assert(t@.take(t@.len() as int) =~= t@);
    }
    None
}

pub proof fn lemma_last_index_range(s: Seq<char>, c: char)
    ensures
        -1 <= last_index(s, c) < s.len(),
        last_index(s, c) >= 0 ==> s[last_index(s, c)] == c,
    decreases s.len(),
{
    if s.len() > 0 && s.last() != c {
        lemma_last_index_range(s.drop_last(), c);
    }
}

fn parse_u32_pieces(parts: &Vec<Vec<char>>) -> (r: Vec<u32>)
    ensures
        r@.len() == parsed_u32s(seq_views(parts@)).len(),
        forall|i: int|
            0 <= i < r@.len() ==> r@[i] as nat == #[trigger] parsed_u32s(
                seq_views(parts@),
            )[i],
{
    let ghost views = seq_views(parts@);
    let mut r: Vec<u32> = Vec::new();
    let n = parts.len();
    let mut i: usize = 0;
    while i < n
        invariant
            i <= n == parts@.len(),
            views == seq_views(parts@),
            r@.len() == parsed_u32s(views.take(i as int)).len(),
            forall|k: int|
                0 <= k < r@.len() ==> r@[k] as nat == #[trigger] parsed_u32s(
                    views.take(i as int),
                )[k],
        decreases n - i,
    {
        proof {
            assert(views.take(i as int + 1).drop_last() =~= views.take(i as int));
            assert(views.take(i as int + 1).last() == parts@[i as int]@);
        }
        match parse_u32_chars(parts[i].as_slice()) {
            Some(v) => {
                r.push(v);
            },
            None => {},
        }
        i = i + 1;
    }
    proof {
        assert(views.take(n as int) =~= views);
    }
    r
}

proof fn lemma_split_views(v: Vec<Vec<char>>, s: Seq<char>, sep: char)
    requires
        v@.len() == split(s, sep).len(),
        forall|i: int| 0 <= i < v@.len() ==> #[trigger] v@[i]@ == split(s, sep)[i],
    ensures
        seq_views(v@) =~= split(s, sep),
{
}

/// Clock text and offset of a time part; see `split_offset`.
fn split_offset_exec(t: &[char]) -> (r: Option<(Vec<char>, i64)>)
    ensures
        match r {
            Some((c, off)) => split_offset(t@) == Some((c@, off as int)),
            None => split_offset(t@) is None,
        },
        r matches Some((c, off)) ==> -10_000 <= off <= 10_000,
{
    let n = t.len();
    if n > 0 && t[n - 1] == 'Z' {
        let c = slice_range(t, 0, n - 1);
        proof {
            assert(c@ =~= t@.drop_last());
        }
        return Some((c, 0));
    }
    let found = match last_index_exec(t, '+') {
        Some(i) => Some(i),
        None => last_index_exec(t, '-'),
    };
    proof {
        lemma_last_index_range(t@, '+');
        lemma_last_index_range(t@, '-');
    }
    let ghost idx: int = match found {
        Some(i) => i as int,
        None => -1,
    };
    let big = match found {
        Some(i) => prefix_bytes_exceed(t, i, 2),
        None => false,
    };
    if big {
        let i = match found {
            Some(i) => i,
            None => 0,
        };
        let after = slice_range(t, i + 1, n);
        proof {
            assert(after@ =~= t@.skip(idx + 1));
        }
        if after.len() >= 5 && after[2] == ':' {
            let hs = slice_range(after.as_slice(), 0, 2);
            let ms = slice_range(after.as_slice(), 3, 5);
            proof {
                assert(hs@ =~= after@.take(2));
            }
            let h = parse_i64_chars(hs.as_slice());
            let m = parse_i64_chars(ms.as_slice());
            match (h, m) {
                (Some(h), Some(m)) => {
                    proof {
                        lemma_two_char_i64_bound(hs@);
                        lemma_two_char_i64_bound(ms@);
                    }
                    let off = h * 60 + m;
                    let clock = slice_range(t, 0, i);
                    proof {
                        assert(clock@ =~= t@.take(idx as int));
                    }
                    if t[i] == '-' {
                        Some((clock, -off))
                    } else {
                        Some((clock, off))
                    }
                },
                _ => None,
            }
        } else {
            None
        }
    } else {
        let c = slice_range(t, 0, n);
        proof {
            assert(c@ =~= t@);
        }
        Some((c, 0))
    }
}

/// A two-character integer lies in `-9..=99`.
proof fn lemma_two_char_i64_bound(s: Seq<char>)
    requires
        s.len() == 2,
    ensures
        parse_i64_spec(s) matches Some(v) ==> -9 <= v <= 99,
{
    let body = if s[0] == '+' || s[0] == '-' {
        s.drop_first()
    } else {
        s
    };
    if body.len() == 2 && all_digits(body) {
        let b1 = body.drop_last();
        assert(b1.drop_last() =~= Seq::<char>::empty());
        assert(is_digit(body[0]) && is_digit(body[1]));
        assert(b1.last() == body[0]);
        assert(digits_value(b1.drop_last()) == 0);
        assert(digits_value(b1) == digit_val(body[0]));
        assert(digits_value(body) == digit_val(body[0]) * 10 + digit_val(body[1]));
    } else if body.len() == 1 && all_digits(body) {
        assert(body.drop_last() =~= Seq::<char>::empty());
        assert(is_digit(body[0]));
        assert(digits_value(body.drop_last()) == 0);
        assert(digits_value(body) == digit_val(body[0]));
    }
}

fn is_null_text(s: &[char]) -> (b: bool)
    ensures
        b == (s@ == null_text()),
{
    if s.len() == 4 && s[0] == 'n' && s[1] == 'u' && s[2] == 'l' && s[3] == 'l' {
        proof {
            assert(s@ =~= null_text());
        }
        true
    } else {
        false
    }
}

/// Parse an ISO-8601 date-time string to Unix seconds; `None` on malformed or
/// empty input and on the text `null`.
pub fn iso_to_unix_secs(s: &str) -> (r: Option<u64>)
    ensures
        r == iso_unix(s@),
        r matches Some(t) ==> t <= i64::MAX,
{
    let raw = chars_of(s);
    let t = trim_chars(raw.as_slice());
    if t.len() == 0 || is_null_text(t.as_slice()) {
        return None;
    }
    let parts = split_chars(t.as_slice(), 'T');
    if parts.len() < 2 {
        return None;
    }
    let date_pieces = split_chars(parts[0].as_slice(), '-');
    let date = parse_u32_pieces(&date_pieces);
    proof {
        lemma_split_views(date_pieces, parts@[0]@, '-');
    }
    if date.len() != 3 {
        return None;
    }
    let split = split_offset_exec(parts[1].as_slice());
    let (clock, tz) = match split {
        None => return None,
        Some(p) => p,
    };
    let clock_pieces = split_chars(clock.as_slice(), ':');
    let tp = parse_u32_pieces(&clock_pieces);
    proof {
        lemma_split_views(clock_pieces, clock@, ':');
    }
    if tp.len() < 3 || date[0] > i32::MAX as u32 || date[1] > i32::MAX as u32 || date[2]
        > i32::MAX as u32 {
        return None;
    }
    let days = match ymd_to_days(date[0] as i32, date[1] as i32, date[2] as i32) {
        None => return None,
        Some(d) => d,
    };
    let secs: i64 = days * 86_400 + tp[0] as i64 * 3_600 + tp[1] as i64 * 60 + tp[2] as i64;
    let adjusted = secs - tz * 60;
    if adjusted < 0 {
        Some(0)
    } else {
        Some(adjusted as u64)
    }
}

} // verus!
