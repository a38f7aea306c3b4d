//! Durations as the EVE client shows them: `5d 13h`, `3d12h`, `90s`. Parsing
//! splits the text into at most two `<number><unit>` components; formatting
//! writes whole days, hours, minutes and seconds as up to three components.
use vstd::prelude::*;
use crate::text::{
    decimal, digits_value, is_digit, is_whitespace, is_ws, lead_ws, lemma_lead_ws_char,
    lemma_trail_ws_char, string_from, trail_ws, trim, trim_chars, chars_of, u64_to_chars,
    extend_chars, all_digits, digit_val,
};

verus! {

/// A duration unit suffix.
#[derive(Debug, Clone, Copy, PartialEq, Eq, Structural)]
pub enum DurationUnit {
    Days,
    Hours,
    Minutes,
    Seconds,
}

/// The unit a suffix character names.
pub open spec fn unit_of(c: char) -> Option<DurationUnit> {
    if c == 'd' {
        Some(DurationUnit::Days)
    } else if c == 'h' {
        Some(DurationUnit::Hours)
    } else if c == 'm' {
        Some(DurationUnit::Minutes)
    } else if c == 's' {
        Some(DurationUnit::Seconds)
    } else {
        None
    }
}

/// Seconds in one unit.
pub open spec fn unit_seconds(u: DurationUnit) -> nat {
    match u {
        DurationUnit::Days => 86400,
        DurationUnit::Hours => 3600,
        DurationUnit::Minutes => 60,
        DurationUnit::Seconds => 1,
    }
}

/// One `<number><unit>` component; the number is digits with at most one `.`.
#[derive(Debug, Clone)]
pub struct DurationComponent {
    pub number: String,
    pub unit: DurationUnit,
}

/// Why a duration text was refused.
#[derive(Debug, Clone, PartialEq, Eq)]
pub enum DurationError {
    /// Nothing but whitespace.
    Empty,
    /// A component does not start with a digit or `.`.
    ExpectedNumber,
    /// The text ends right after this number.
    MissingUnit(String),
    /// This number has no digit (a lone `.`).
    InvalidNumber(String),
    /// A third component follows.
    TooManyComponents,
    /// The suffix after the number is not `d`, `h`, `m` or `s`.
    UnknownUnit(char, String),
}

/// The refusals, over character sequences.
pub enum DurationFault {
    Empty,
    ExpectedNumber,
    MissingUnit(Seq<char>),
    InvalidNumber(Seq<char>),
    TooManyComponents,
    UnknownUnit(char, Seq<char>),
}

pub open spec fn fault_matches(e: DurationError, f: DurationFault) -> bool {
    match (e, f) {
        (DurationError::Empty, DurationFault::Empty) => true,
        (DurationError::ExpectedNumber, DurationFault::ExpectedNumber) => true,
        (DurationError::MissingUnit(a), DurationFault::MissingUnit(b)) => a@ == b,
        (DurationError::InvalidNumber(a), DurationFault::InvalidNumber(b)) => a@ == b,
        (DurationError::TooManyComponents, DurationFault::TooManyComponents) => true,
        (DurationError::UnknownUnit(c, a), DurationFault::UnknownUnit(d, b)) => c == d && a@ == b,
        _ => false,
    }
}

/// First index at or after `i` that is not whitespace (or the end).
pub open spec fn skip_ws_from(t: Seq<char>, i: int) -> int
    decreases t.len() - i,
{
    if 0 <= i < t.len() && is_ws(t[i]) {
        skip_ws_from(t, i + 1)
    } else {
        i
    }
}

/// End of the number starting at `i`: digits, and one `.` at most.
pub open spec fn number_end(t: Seq<char>, i: int, has_dot: bool) -> int
    decreases t.len() - i,
{
    if 0 <= i < t.len() && (is_digit(t[i]) || (t[i] == '.' && !has_dot)) {
        number_end(t, i + 1, has_dot || t[i] == '.')
    } else {
        i
    }
}

pub open spec fn has_digit(s: Seq<char>) -> bool {
    exists|k: int| 0 <= k < s.len() && is_digit(#[trigger] s[k])
}

pub proof fn lemma_skip_ws_from(t: Seq<char>, i: int)
    requires
        0 <= i,
    ensures
        i <= skip_ws_from(t, i),
        i <= t.len() ==> skip_ws_from(t, i) <= t.len(),
    decreases t.len() - i,
{
    if 0 <= i < t.len() && is_ws(t[i]) {
        lemma_skip_ws_from(t, i + 1);
    }
}

pub proof fn lemma_number_end(t: Seq<char>, i: int, has_dot: bool)
    requires
        0 <= i,
    ensures
        i <= number_end(t, i, has_dot),
        i <= t.len() ==> number_end(t, i, has_dot) <= t.len(),
    decreases t.len() - i,
{
    if 0 <= i < t.len() && (is_digit(t[i]) || (t[i] == '.' && !has_dot)) {
        lemma_number_end(t, i + 1, has_dot || t[i] == '.');
    }
}

/// The components of `t` from index `i` on, `count` components having come
/// before.
pub open spec fn components_from(t: Seq<char>, i: int, count: nat) -> Result<
    Seq<(Seq<char>, DurationUnit)>,
    DurationFault,
>
    decreases t.len() - i,
{
    if i < 0 || i > t.len() {
        Ok(Seq::empty())
    } else {
        let a = skip_ws_from(t, i);
        proof {
            lemma_skip_ws_from(t, i);
        }
        if a >= t.len() {
            Ok(Seq::empty())
        } else {
            let b = number_end(t, a, false);
            proof {
                lemma_number_end(t, a, false);
            }
            let num = t.subrange(a, b);
            if b == a {
                Err(DurationFault::ExpectedNumber)
            } else if b >= t.len() {
                Err(DurationFault::MissingUnit(num))
            } else if !has_digit(num) {
                Err(DurationFault::InvalidNumber(num))
            } else if count >= 2 {
                Err(DurationFault::TooManyComponents)
            } else {
                match unit_of(t[b]) {
                    None => Err(DurationFault::UnknownUnit(t[b], num)),
                    Some(u) => match components_from(t, b + 1, count + 1) {
                        Ok(rest) => Ok(seq![(num, u)] + rest),
                        Err(f) => Err(f),
                    },
                }
            }
        }
    }
}

/// The components of a duration text, or why it is refused.
pub open spec fn duration_components(s: Seq<char>) -> Result<
    Seq<(Seq<char>, DurationUnit)>,
    DurationFault,
> {
    let t = trim(s);
    if t.len() == 0 {
        Err(DurationFault::Empty)
    } else {
        components_from(t, 0, 0)
    }
}

pub open spec fn component_views(v: Seq<DurationComponent>) -> Seq<(Seq<char>, DurationUnit)> {
    v.map_values(|c: DurationComponent| (c.number@, c.unit))
}

pub open spec fn prepend_ok(
    p: Seq<(Seq<char>, DurationUnit)>,
    r: Result<Seq<(Seq<char>, DurationUnit)>, DurationFault>,
) -> Result<Seq<(Seq<char>, DurationUnit)>, DurationFault> {
    match r {
        Ok(rest) => Ok(p + rest),
        Err(f) => Err(f),
    }
}

/// Split a duration text into its components (`parse_duration` without the
/// arithmetic): up to two `<number><unit>` pieces, separated by whitespace or
/// written together, units `d`, `h`, `m`, `s`.
pub fn parse_duration_parts(input: &str) -> (r: Result<Vec<DurationComponent>, DurationError>)
    ensures
        match duration_components(input@) {
            Ok(cs) => r matches Ok(v) && component_views(v@) == cs,
            Err(f) => r matches Err(e) && fault_matches(e, f),
        },
{
    let raw = chars_of(input);
    let t = trim_chars(raw.as_slice());
    let n = t.len();
    if n == 0 {
        return Err(DurationError::Empty);
    }
    let ghost tv = t@;
    let mut comps: Vec<DurationComponent> = Vec::new();
    let mut count: usize = 0;
    let mut i: usize = 0;
    proof {
        assert(component_views(comps@) =~= Seq::empty());
        assert(prepend_ok(Seq::empty(), components_from(tv, 0, 0)) == components_from(tv, 0, 0))
            by {
            match components_from(tv, 0, 0) {
                Ok(rest) => {
                    assert(Seq::<(Seq<char>, DurationUnit)>::empty() + rest =~= rest);
                },
                Err(_) => {},
            }
        }
    }
    loop
        invariant
            n == t@.len() == tv.len(),
            t@ == tv,
            tv == trim(input@),
            n > 0,
            i <= n,
            count == comps@.len(),
            count <= 2,
            components_from(tv, 0, 0) == prepend_ok(
                component_views(comps@),
                components_from(tv, i as int, count as nat),
            ),
        decreases n - i,
    {
        let ghost i0 = i;
        while i < n && is_whitespace(t[i])
            invariant
                n == t@.len(),
                i0 <= i <= n,
                skip_ws_from(t@, i0 as int) == skip_ws_from(t@, i as int),
            decreases n - i,
        {
            i = i + 1;
        }
        proof {
            assert(skip_ws_from(t@, i as int) == i as int);
        }
        if i >= n {
            proof {
                assert(component_views(comps@) + Seq::empty() =~= component_views(comps@));
            }
            return Ok(comps);
        }
        let a = i;
        let mut has_dot = false;
        while i < n && (('0' <= t[i] && t[i] <= '9') || (t[i] == '.' && !has_dot))
            invariant
                n == t@.len(),
                a <= i <= n,
                number_end(t@, a as int, false) == number_end(t@, i as int, has_dot),
                has_dot == exists|k: int| a <= k < i && t@[k] == '.',
                forall|k: int| a <= k < i ==> is_digit(#[trigger] t@[k]) || t@[k] == '.',
            decreases n - i,
        {
            if t[i] == '.' {
                has_dot = true;
            }
            i = i + 1;
        }
        let b = i;
        proof {
            assert(number_end(t@, i as int, has_dot) == i as int);
        }
        let ghost num = t@.subrange(a as int, b as int);
        if b == a {
            return Err(DurationError::ExpectedNumber);
        }
        let mut digits: Vec<char> = Vec::new();
        let mut seen_digit = false;
        let mut k: usize = a;
        while k < b
            invariant
                a <= k <= b <= n == t@.len(),
                digits@ == t@.subrange(a as int, k as int),
                seen_digit == exists|q: int| a <= q < k && is_digit(#[trigger] t@[q]),
            decreases b - k,
        {
            if '0' <= t[k] && t[k] <= '9' {
                seen_digit = true;
            }
            digits.push(t[k]);
            proof {
                assert(t@.subrange(a as int, k + 1) =~= t@.subrange(a as int, k as int).push(
                    t@[k as int],
                ));
            }
            k = k + 1;
        }
        proof {
            if seen_digit {
                let q = choose|q: int| a <= q < b && is_digit(#[trigger] t@[q]);
                assert(num[q - a] == t@[q]);
            }
            if has_digit(num) {
                let q = choose|q: int| 0 <= q < num.len() && is_digit(#[trigger] num[q]);
                assert(t@[a + q] == num[q]);
            }
        }
        let number = string_from(digits.as_slice());
        if b >= n {
            return Err(DurationError::MissingUnit(number));
        }
        if !seen_digit {
            return Err(DurationError::InvalidNumber(number));
        }
        if count >= 2 {
            return Err(DurationError::TooManyComponents);
        }
        let c = t[b];
        let unit = if c == 'd' {
            DurationUnit::Days
        } else if c == 'h' {
            DurationUnit::Hours
        } else if c == 'm' {
            DurationUnit::Minutes
        } else if c == 's' {
            DurationUnit::Seconds
        } else {
            return Err(DurationError::UnknownUnit(c, number));
        };
        let ghost old_views = component_views(comps@);
        comps.push(DurationComponent { number, unit });
        proof {
            assert(component_views(comps@) =~= old_views.push((num, unit)));
            match components_from(tv, b + 1, (count + 1) as nat) {
                Ok(rest) => {
                    assert(old_views + (seq![(num, unit)] + rest) =~= old_views.push((num, unit))
                        + rest);
                },
                Err(_) => {},
            }
        }
        count = count + 1;
        i = b + 1;
    }
}


// ---------------------------------------------------------------------------
// Formatting whole units
// ---------------------------------------------------------------------------

/// `<v><unit>`, such as `13h`.
pub open spec fn unit_part(v: nat, u: char) -> Seq<char> {
    decimal(v).push(u)
}

/// The parts for the non-zero values, largest unit first.
pub open spec fn nonzero_parts(d: nat, h: nat, m: nat, s: nat) -> Seq<Seq<char>> {
    (if d > 0 {
        seq![unit_part(d, 'd')]
    } else {
        Seq::empty()
    }) + (if h > 0 {
        seq![unit_part(h, 'h')]
    } else {
        Seq::empty()
    }) + (if m > 0 {
        seq![unit_part(m, 'm')]
    } else {
        Seq::empty()
    }) + (if s > 0 {
        seq![unit_part(s, 's')]
    } else {
        Seq::empty()
    })
}

/// The parts separated by single spaces.
pub open spec fn join_spaced(ps: Seq<Seq<char>>) -> Seq<char>
    decreases ps.len(),
{
    if ps.len() == 0 {
        Seq::empty()
    } else if ps.len() == 1 {
        ps[0]
    } else {
        join_spaced(ps.drop_last()) + seq![' '] + ps.last()
    }
}

/// Days, hours and minutes with the minutes rounded by the seconds (up at 30
/// or more), carrying into hours and days.
pub open spec fn rounded_dhm(d: nat, h: nat, m: nat, s: nat) -> (nat, nat, nat) {
    if s >= 30 {
        if m + 1 >= 60 {
            if h + 1 >= 24 {
                (d + 1, (h + 1 - 24) as nat, (m + 1 - 60) as nat)
            } else {
                (d, h + 1, (m + 1 - 60) as nat)
            }
        } else {
            (d, h, m + 1)
        }
    } else {
        (d, h, m)
    }
}

/// The text of a duration given in whole units: `0s` for nothing, else the
/// non-zero units; when all four are non-zero, the seconds are dropped and
/// round the minutes.
pub open spec fn duration_text(d: nat, h: nat, m: nat, s: nat) -> Seq<char> {
    if d == 0 && h == 0 && m == 0 && s == 0 {
        seq!['0', 's']
    } else if d > 0 && h > 0 && m > 0 && s > 0 {
        let r = rounded_dhm(d, h, m, s);
        join_spaced(nonzero_parts(r.0, r.1, r.2, 0))
    } else {
        join_spaced(nonzero_parts(d, h, m, s))
    }
}

/// The carries of the rounding stay within `u64`.
pub open spec fn rounding_fits(d: u64, h: u64, m: u64, s: u64) -> bool {
    (d > 0 && h > 0 && m > 0 && s >= 30) ==> (m < u64::MAX && (m + 1 >= 60 ==> (h < u64::MAX && (
    h + 1 >= 24 ==> d < u64::MAX))))
}

proof fn lemma_join_push(ps: Seq<Seq<char>>, p: Seq<char>)
    ensures
        join_spaced(ps.push(p)) == if ps.len() == 0 {
            p
        } else {
            join_spaced(ps) + seq![' '] + p
        },
{
    assert(ps.push(p).drop_last() =~= ps);
}

proof fn lemma_join_nonempty(ps: Seq<Seq<char>>)
    requires
        forall|i: int| 0 <= i < ps.len() ==> (#[trigger] ps[i]).len() > 0,
    ensures
        (join_spaced(ps).len() == 0) == (ps.len() == 0),
    decreases ps.len(),
{
    if ps.len() > 1 {
        lemma_join_nonempty(ps.drop_last());
    }
}

/// Append `<v><unit>` (after a space unless `out` is empty) when `v` is non-zero.
fn append_part(out: &mut Vec<char>, v: u64, u: char)
    ensures
        final(out)@ == if v > 0 {
            if old(out)@.len() == 0 {
                unit_part(v as nat, u)
            } else {
                old(out)@ + seq![' '] + unit_part(v as nat, u)
            }
        } else {
            old(out)@
        },
{
    if v > 0 {
        if out.len() > 0 {
            out.push(' ');
        }
        let digits = u64_to_chars(v);
        extend_chars(out, digits.as_slice());
        out.push(u);
        proof {
            if old(out)@.len() == 0 {
                assert(final(out)@ =~= unit_part(v as nat, u));
            } else {
                assert(final(out)@ =~= old(out)@ + seq![' '] + unit_part(v as nat, u));
            }
        }
    }
}

/// Format a duration given in whole days, hours, minutes and seconds
/// (`format_duration` after its decomposition): up to three units, such as
/// `1d 11h 30m`; with all four units non-zero, `1d 5h 31m` for 1d 5h 30m 45s.
pub fn format_duration_parts(d: u64, h: u64, m: u64, s: u64) -> (r: String)
    requires
        rounding_fits(d, h, m, s),
    ensures
        r@ == duration_text(d as nat, h as nat, m as nat, s as nat),
{
    let mut out: Vec<char> = Vec::new();
    if d == 0 && h == 0 && m == 0 && s == 0 {
        out.push('0');
        out.push('s');
        proof {
            assert(out@ =~= seq!['0', 's']);
        }
        return string_from(out.as_slice());
    }
    let mut vd = d;
    let mut vh = h;
    let mut vm = m;
    let mut vs = s;
    if d > 0 && h > 0 && m > 0 && s > 0 {
        if s >= 30 {
            vm = vm + 1;
            if vm >= 60 {
                vm = vm - 60;
                vh = vh + 1;
                if vh >= 24 {
                    vh = vh - 24;
                    vd = vd + 1;
                }
            }
        }
        vs = 0;
    }
    let ghost want = nonzero_parts(vd as nat, vh as nat, vm as nat, vs as nat);
    proof {
        if d > 0 && h > 0 && m > 0 && s > 0 {
            let r = rounded_dhm(d as nat, h as nat, m as nat, s as nat);
            assert(r == (vd as nat, vh as nat, vm as nat));
        }
        assert(out@ =~= join_spaced(Seq::empty()));
    }
    let ghost p0: Seq<Seq<char>> = Seq::empty();
    let ghost p1 = if vd > 0 { p0.push(unit_part(vd as nat, 'd')) } else { p0 };
    let ghost p2 = if vh > 0 { p1.push(unit_part(vh as nat, 'h')) } else { p1 };
    let ghost p3 = if vm > 0 { p2.push(unit_part(vm as nat, 'm')) } else { p2 };
    let ghost p4 = if vs > 0 { p3.push(unit_part(vs as nat, 's')) } else { p3 };
    proof {
        assert forall|i: int| 0 <= i < p3.len() implies (#[trigger] p3[i]).len() > 0 by {}
        lemma_join_nonempty(p0);
        lemma_join_push(p0, unit_part(vd as nat, 'd'));
        lemma_join_nonempty(p1);
        lemma_join_push(p1, unit_part(vh as nat, 'h'));
        lemma_join_nonempty(p2);
        lemma_join_push(p2, unit_part(vm as nat, 'm'));
        lemma_join_nonempty(p3);
        lemma_join_push(p3, unit_part(vs as nat, 's'));
        assert(p4 =~= want);
    }
    append_part(&mut out, vd, 'd');
    assert(out@ == join_spaced(p1));
    append_part(&mut out, vh, 'h');
    assert(out@ == join_spaced(p2));
    append_part(&mut out, vm, 'm');
    assert(out@ == join_spaced(p3));
    append_part(&mut out, vs, 's');
    assert(out@ == join_spaced(p4));
    string_from(out.as_slice())
}

// ---------------------------------------------------------------------------
// Parsing what formatting writes
// ---------------------------------------------------------------------------

/// The seconds of components whose numbers are whole.
pub open spec fn components_seconds(cs: Seq<(Seq<char>, DurationUnit)>) -> nat
    decreases cs.len(),
{
    if cs.len() == 0 {
        0
    } else {
        components_seconds(cs.drop_last()) + digits_value(cs.last().0) * unit_seconds(cs.last().1)
    }
}

/// How many of the four values are non-zero.
pub open spec fn nonzero_count(d: nat, h: nat, m: nat, s: nat) -> nat {
    (if d > 0 {
        1nat
    } else {
        0nat
    }) + (if h > 0 {
        1nat
    } else {
        0nat
    }) + (if m > 0 {
        1nat
    } else {
        0nat
    }) + (if s > 0 {
        1nat
    } else {
        0nat
    })
}

pub(crate) proof fn lemma_decimal(n: nat)
    ensures
        decimal(n).len() >= 1,
        all_digits(decimal(n)),
        digits_value(decimal(n)) == n,
    decreases n,
{
    if n >= 10 {
        lemma_decimal(n / 10);
        let s = decimal(n);
        assert(s.drop_last() =~= decimal(n / 10));
        assert forall|i: int| 0 <= i < s.len() implies is_digit(#[trigger] s[i]) by {
            if i < s.len() - 1 {
                assert(s[i] == decimal(n / 10)[i]);
            }
        }
        assert(s.last() == ((n % 10) + '0' as nat) as char);
        assert(digit_val(s.last()) == n % 10);
        assert(digits_value(s) == digits_value(decimal(n / 10)) * 10 + digit_val(s.last()));
        vstd::arithmetic::div_mod::lemma_fundamental_div_mod(n as int, 10);
        assert(n == (n / 10) * 10 + n % 10);
    } else {
        let s = decimal(n);
        assert(s.drop_last() =~= Seq::<char>::empty());
        assert(digit_val(s.last()) == n);
        assert(digits_value(s.drop_last()) == 0);
    }
}

proof fn lemma_skip_at_nonws(t: Seq<char>, i: int)
    requires
        0 <= i <= t.len(),
        i < t.len() ==> !is_ws(t[i]),
    ensures
        skip_ws_from(t, i) == i,
{
}

proof fn lemma_number_end_digits(t: Seq<char>, i: int, e: int)
    requires
        0 <= i <= e <= t.len(),
        forall|q: int| i <= q < e ==> is_digit(#[trigger] t[q]),
        e < t.len() ==> !is_digit(t[e]) && t[e] != '.',
    ensures
        number_end(t, i, false) == e,
    decreases e - i,
{
    if i < e {
        lemma_number_end_digits(t, i + 1, e);
    }
}

/// The components read at `i` from text made of `decimal(v)` and the unit
/// character `u` there.
proof fn lemma_read_part(t: Seq<char>, i: int, v: nat, u: char, count: nat)
    requires
        0 <= i,
        count < 2,
        unit_of(u) is Some,
        i + decimal(v).len() < t.len(),
        t.subrange(i, i + decimal(v).len() + 1) == unit_part(v, u),
    ensures
        components_from(t, i, count) == match components_from(
            t,
            i + decimal(v).len() + 1,
            count + 1,
        ) {
            Ok(rest) => Ok::<Seq<(Seq<char>, DurationUnit)>, DurationFault>(
                seq![(decimal(v), unit_of(u)->0)] + rest,
            ),
            Err(f) => Err(f),
        },
{
    lemma_decimal(v);
    let k = decimal(v).len() as int;
    assert forall|q: int| i <= q < i + k implies is_digit(#[trigger] t[q]) by {
        assert(t[q] == t.subrange(i, i + k + 1)[q - i]);
        assert(unit_part(v, u)[q - i] == decimal(v)[q - i]);
    }
    assert(t[i + k] == t.subrange(i, i + k + 1)[k]);
    assert(is_digit(t[i]));
    lemma_skip_at_nonws(t, i);
    lemma_number_end_digits(t, i, i + k);
    assert(t.subrange(i, i + k) =~= decimal(v));
    assert(is_digit(decimal(v)[0]));
}

proof fn lemma_untrimmed(t: Seq<char>)
    requires
        t.len() > 0,
        is_digit(t[0]),
        unit_of(t.last()) is Some,
    ensures
        trim(t) == t,
{
    lemma_lead_ws_char(t, 0);
    lemma_trail_ws_char(t, 0);
    assert(trim(t) =~= t);
}

proof fn lemma_read_one(v: nat, u: char)
    requires
        unit_of(u) is Some,
    ensures
        duration_components(unit_part(v, u)) matches Ok(cs) && components_seconds(cs) == v
            * unit_seconds(unit_of(u)->0),
{
    let t = unit_part(v, u);
    lemma_decimal(v);
    let k0 = decimal(v).len() as int;
    assert(t[0] == decimal(v)[0]);
    lemma_untrimmed(t);
    assert(t.subrange(0, k0 + 1) =~= t);
    lemma_skip_at_nonws(t, t.len() as int);
    assert(components_from(t, k0 + 1, 1) == Ok::<Seq<(Seq<char>, DurationUnit)>, DurationFault>(
        Seq::empty(),
    ));
    lemma_read_part(t, 0, v, u, 0);
    let cs = seq![(decimal(v), unit_of(u)->0)] + Seq::empty();
    assert(components_from(t, 0, 0) == Ok::<Seq<(Seq<char>, DurationUnit)>, DurationFault>(cs));
    assert(duration_components(t) == components_from(t, 0, 0));
    assert(cs.drop_last() =~= Seq::<(Seq<char>, DurationUnit)>::empty());
    assert(cs.last() == (decimal(v), unit_of(u)->0));
    assert(components_seconds(Seq::<(Seq<char>, DurationUnit)>::empty()) == 0);
    assert(components_seconds(cs) == digits_value(decimal(v)) * unit_seconds(unit_of(u)->0));
}

#[verifier::spinoff_prover]
#[verifier::rlimit(40)]
proof fn lemma_read_two(v1: nat, u1: char, v2: nat, u2: char)
    requires
        unit_of(u1) is Some,
        unit_of(u2) is Some,
    ensures
        duration_components(unit_part(v1, u1) + seq![' '] + unit_part(v2, u2)) matches Ok(cs)
            && components_seconds(cs) == v1 * unit_seconds(unit_of(u1)->0) + v2 * unit_seconds(
            unit_of(u2)->0,
        ),
{
    let p0 = unit_part(v1, u1);
    let p1 = unit_part(v2, u2);
    let t = p0 + seq![' '] + p1;
    lemma_decimal(v1);
    lemma_decimal(v2);
    let k0 = decimal(v1).len() as int;
    let k1 = decimal(v2).len() as int;
    assert(t[0] == decimal(v1)[0]);
    assert(t.last() == u2);
    lemma_untrimmed(t);
    assert(t.subrange(0, k0 + 1) =~= p0);
    assert(t[k0 + 1] == ' ');
    assert(t.subrange(k0 + 2, k0 + 2 + k1 + 1) =~= p1);
    assert(t[k0 + 2] == decimal(v2)[0]);
    assert(skip_ws_from(t, k0 + 1) == skip_ws_from(t, k0 + 2));
    lemma_skip_at_nonws(t, k0 + 2);
    lemma_skip_at_nonws(t, t.len() as int);
    assert(components_from(t, k0 + 2 + k1 + 1, 2) == Ok::<
        Seq<(Seq<char>, DurationUnit)>,
        DurationFault,
    >(Seq::empty()));
    lemma_read_part(t, k0 + 2, v2, u2, 1);
    assert(components_from(t, k0 + 1, 1) == components_from(t, k0 + 2, 1));
    lemma_read_part(t, 0, v1, u1, 0);
    let c0 = (decimal(v1), unit_of(u1)->0);
    let c1 = (decimal(v2), unit_of(u2)->0);
    let cs = seq![c0] + (seq![c1] + Seq::empty());
    assert(components_from(t, 0, 0) == Ok::<Seq<(Seq<char>, DurationUnit)>, DurationFault>(cs));
    assert(duration_components(t) == components_from(t, 0, 0));
    assert(cs.drop_last() =~= seq![c0]);
    assert(cs.drop_last().drop_last() =~= Seq::<(Seq<char>, DurationUnit)>::empty());
    assert(components_seconds(Seq::<(Seq<char>, DurationUnit)>::empty()) == 0);
    assert(components_seconds(seq![c0]) == digits_value(c0.0) * unit_seconds(c0.1));
    assert(components_seconds(cs) == components_seconds(seq![c0]) + digits_value(c1.0)
        * unit_seconds(c1.1));
}

proof fn lemma_join_one(a: Seq<char>)
    ensures
        join_spaced(seq![a]) == a,
{
}

proof fn lemma_join_two(a: Seq<char>, b: Seq<char>)
    ensures
        join_spaced(seq![a, b]) == a + seq![' '] + b,
{
    assert(seq![a, b].drop_last() =~= seq![a]);
    lemma_join_one(a);
    assert(seq![a, b].last() == b);
}

/// Law: a duration of at most two non-zero whole units reads back, from the
/// text formatting writes, as exactly its number of seconds.
#[verifier::spinoff_prover]
pub proof fn lemma_duration_roundtrip(d: nat, h: nat, m: nat, s: nat)
    requires
        nonzero_count(d, h, m, s) <= 2,
    ensures
        duration_components(duration_text(d, h, m, s)) matches Ok(cs) && components_seconds(cs)
            == d * 86400 + h * 3600 + m * 60 + s,
{
    let pd = unit_part(d, 'd');
    let ph = unit_part(h, 'h');
    let pm = unit_part(m, 'm');
    let ps = unit_part(s, 's');
    let e = Seq::<Seq<char>>::empty();
    if d == 0 && h == 0 && m == 0 && s == 0 {
        assert(decimal(0) =~= seq!['0']);
        assert(duration_text(d, h, m, s) =~= unit_part(0, 's'));
        lemma_read_one(0, 's');
    } else if d > 0 && h == 0 && m == 0 && s == 0 {
        assert(nonzero_parts(d, h, m, s) =~= seq![pd]);
        lemma_join_one(pd);
        assert(duration_text(d, h, m, s) == pd);
        lemma_read_one(d, 'd');
    } else if d == 0 && h > 0 && m == 0 && s == 0 {
        assert(nonzero_parts(d, h, m, s) =~= seq![ph]);
        lemma_join_one(ph);
        assert(duration_text(d, h, m, s) == ph);
        lemma_read_one(h, 'h');
    } else if d == 0 && h == 0 && m > 0 && s == 0 {
        assert(nonzero_parts(d, h, m, s) =~= seq![pm]);
        lemma_join_one(pm);
        assert(duration_text(d, h, m, s) == pm);
        lemma_read_one(m, 'm');
    } else if d == 0 && h == 0 && m == 0 && s > 0 {
        assert(nonzero_parts(d, h, m, s) =~= seq![ps]);
        lemma_join_one(ps);
        assert(duration_text(d, h, m, s) == ps);
        lemma_read_one(s, 's');
    } else if d > 0 && h > 0 {
        assert(nonzero_parts(d, h, m, s) =~= seq![pd, ph]);
        lemma_join_two(pd, ph);
        assert(duration_text(d, h, m, s) == pd + seq![' '] + ph);
        lemma_read_two(d, 'd', h, 'h');
    } else if d > 0 && m > 0 {
        assert(nonzero_parts(d, h, m, s) =~= seq![pd, pm]);
        lemma_join_two(pd, pm);
        assert(duration_text(d, h, m, s) == pd + seq![' '] + pm);
        lemma_read_two(d, 'd', m, 'm');
    } else if d > 0 && s > 0 {
        assert(nonzero_parts(d, h, m, s) =~= seq![pd, ps]);
        lemma_join_two(pd, ps);
        assert(duration_text(d, h, m, s) == pd + seq![' '] + ps);
        lemma_read_two(d, 'd', s, 's');
    } else if h > 0 && m > 0 {
        assert(nonzero_parts(d, h, m, s) =~= seq![ph, pm]);
        lemma_join_two(ph, pm);
        assert(duration_text(d, h, m, s) == ph + seq![' '] + pm);
        lemma_read_two(h, 'h', m, 'm');
    } else if h > 0 && s > 0 {
        assert(nonzero_parts(d, h, m, s) =~= seq![ph, ps]);
        lemma_join_two(ph, ps);
        assert(duration_text(d, h, m, s) == ph + seq![' '] + ps);
        lemma_read_two(h, 'h', s, 's');
    } else {
        assert(m > 0 && s > 0);
        assert(nonzero_parts(d, h, m, s) =~= seq![pm, ps]);
        lemma_join_two(pm, ps);
        assert(duration_text(d, h, m, s) == pm + seq![' '] + ps);
        lemma_read_two(m, 'm', s, 's');
    }
}


/// The text with every space character removed.
pub open spec fn without_spaces(t: Seq<char>) -> Seq<char>
    decreases t.len(),
{
    if t.len() == 0 {
        t
    } else {
        let p = without_spaces(t.drop_last());
        if t.last() == ' ' {
            p
        } else {
            p.push(t.last())
        }
    }
}

proof fn lemma_without_spaces_add(a: Seq<char>, b: Seq<char>)
    ensures
        without_spaces(a + b) == without_spaces(a) + without_spaces(b),
    decreases b.len(),
{
    if b.len() == 0 {
        assert(a + b =~= a);
        assert(without_spaces(a) + without_spaces(b) =~= without_spaces(a));
    } else {
        lemma_without_spaces_add(a, b.drop_last());
        assert((a + b).drop_last() =~= a + b.drop_last());
        assert((a + b).last() == b.last());
        if b.last() != ' ' {
            assert(without_spaces(a) + without_spaces(b.drop_last()).push(b.last()) =~= (
            without_spaces(a) + without_spaces(b.drop_last())).push(b.last()));
        }
    }
}

proof fn lemma_without_spaces_none(t: Seq<char>)
    requires
        forall|i: int| 0 <= i < t.len() ==> #[trigger] t[i] != ' ',
    ensures
        without_spaces(t) == t,
    decreases t.len(),
{
    if t.len() > 0 {
        lemma_without_spaces_none(t.drop_last());
        assert(without_spaces(t.drop_last()).push(t.last()) =~= t);
    }
}

proof fn lemma_unit_part_unspaced(v: nat, u: char)
    requires
        unit_of(u) is Some,
    ensures
        without_spaces(unit_part(v, u)) == unit_part(v, u),
{
    lemma_decimal(v);
    let t = unit_part(v, u);
    assert forall|i: int| 0 <= i < t.len() implies #[trigger] t[i] != ' ' by {
        if i < t.len() - 1 {
            assert(t[i] == decimal(v)[i]);
            assert(is_digit(decimal(v)[i]));
        }
    }
    lemma_without_spaces_none(t);
}

proof fn lemma_two_unspaced(a: nat, u: char, b: nat, w: char)
    requires
        unit_of(u) is Some,
        unit_of(w) is Some,
    ensures
        without_spaces(unit_part(a, u) + seq![' '] + unit_part(b, w)) == unit_part(a, u) + unit_part(b, w),
{
    lemma_without_spaces_add(unit_part(a, u) + seq![' '], unit_part(b, w));
    lemma_without_spaces_add(unit_part(a, u), seq![' ']);
    let sp = seq![' '];
    assert(sp.drop_last() =~= Seq::<char>::empty());
    assert(sp.last() == ' ');
    assert(without_spaces(Seq::<char>::empty()) == Seq::<char>::empty());
    assert(without_spaces(sp) == without_spaces(sp.drop_last()));
    assert(without_spaces(sp) =~= Seq::<char>::empty());
    lemma_unit_part_unspaced(a, u);
    lemma_unit_part_unspaced(b, w);
    assert(without_spaces(unit_part(a, u)) + Seq::<char>::empty() =~= unit_part(a, u));
}

#[verifier::spinoff_prover]
#[verifier::rlimit(40)]
proof fn lemma_read_two_joined(v1: nat, u1: char, v2: nat, u2: char)
    requires
        unit_of(u1) is Some,
        unit_of(u2) is Some,
    ensures
        duration_components(unit_part(v1, u1) + unit_part(v2, u2)) matches Ok(cs)
            && components_seconds(cs) == v1 * unit_seconds(unit_of(u1)->0) + v2 * unit_seconds(
            unit_of(u2)->0,
        ),
{
    let p0 = unit_part(v1, u1);
    let p1 = unit_part(v2, u2);
    let t = p0 + p1;
    lemma_decimal(v1);
    lemma_decimal(v2);
    let k0 = decimal(v1).len() as int;
    let k1 = decimal(v2).len() as int;
    assert(t[0] == decimal(v1)[0]);
    assert(t.last() == u2);
    lemma_untrimmed(t);
    assert(t.subrange(0, k0 + 1) =~= p0);
    assert(t.subrange(k0 + 1, k0 + 1 + k1 + 1) =~= p1);
    assert(t[k0 + 1] == decimal(v2)[0]);
    lemma_skip_at_nonws(t, k0 + 1);
    lemma_skip_at_nonws(t, t.len() as int);
    assert(components_from(t, k0 + 1 + k1 + 1, 2) == Ok::<
        Seq<(Seq<char>, DurationUnit)>,
        DurationFault,
    >(Seq::empty()));
    lemma_read_part(t, k0 + 1, v2, u2, 1);
    lemma_read_part(t, 0, v1, u1, 0);
    let c0 = (decimal(v1), unit_of(u1)->0);
    let c1 = (decimal(v2), unit_of(u2)->0);
    let cs = seq![c0] + (seq![c1] + Seq::empty());
    assert(components_from(t, 0, 0) == Ok::<Seq<(Seq<char>, DurationUnit)>, DurationFault>(cs));
    assert(duration_components(t) == components_from(t, 0, 0));
    assert(cs.drop_last() =~= seq![c0]);
    assert(cs.drop_last().drop_last() =~= Seq::<(Seq<char>, DurationUnit)>::empty());
    assert(components_seconds(Seq::<(Seq<char>, DurationUnit)>::empty()) == 0);
    assert(components_seconds(seq![c0]) == digits_value(c0.0) * unit_seconds(c0.1));
    assert(components_seconds(cs) == components_seconds(seq![c0]) + digits_value(c1.0)
        * unit_seconds(c1.1));
}

proof fn lemma_unspaced_one(v: nat, u: char)
    requires
        unit_of(u) is Some,
    ensures
        duration_components(without_spaces(unit_part(v, u))) matches Ok(cs) && components_seconds(cs)
            == v * unit_seconds(unit_of(u)->0),
{
    lemma_unit_part_unspaced(v, u);
    lemma_read_one(v, u);
}

proof fn lemma_unspaced_two(a: nat, u: char, b: nat, w: char)
    requires
        unit_of(u) is Some,
        unit_of(w) is Some,
    ensures
        duration_components(without_spaces(unit_part(a, u) + seq![' '] + unit_part(b, w))) matches Ok(cs)
            && components_seconds(cs) == a * unit_seconds(unit_of(u)->0) + b * unit_seconds(
            unit_of(w)->0,
        ),
{
    lemma_two_unspaced(a, u, b, w);
    lemma_read_two_joined(a, u, b, w);
}

/// Law: a duration of at most two non-zero whole units also reads back from
/// the formatted text with its spaces removed (`3d7h` for `3d 7h`).
#[verifier::spinoff_prover]
#[verifier::rlimit(40)]
pub proof fn lemma_duration_roundtrip_unspaced(d: nat, h: nat, m: nat, s: nat)
    requires
        nonzero_count(d, h, m, s) <= 2,
    ensures
        duration_components(without_spaces(duration_text(d, h, m, s))) matches Ok(cs)
            && components_seconds(cs) == d * 86400 + h * 3600 + m * 60 + s,
{
    let pd = unit_part(d, 'd');
    let ph = unit_part(h, 'h');
    let pm = unit_part(m, 'm');
    let ps = unit_part(s, 's');
    if d == 0 && h == 0 && m == 0 && s == 0 {
        assert(decimal(0) =~= seq!['0']);
        assert(duration_text(d, h, m, s) =~= unit_part(0, 's'));
        lemma_unspaced_one(0, 's');
    } else if h == 0 && m == 0 && s == 0 {
        assert(nonzero_parts(d, h, m, s) =~= seq![pd]);
        lemma_join_one(pd);
        lemma_unspaced_one(d, 'd');
    } else if d == 0 && m == 0 && s == 0 {
        assert(nonzero_parts(d, h, m, s) =~= seq![ph]);
        lemma_join_one(ph);
        lemma_unspaced_one(h, 'h');
    } else if d == 0 && h == 0 && s == 0 {
        assert(nonzero_parts(d, h, m, s) =~= seq![pm]);
        lemma_join_one(pm);
        lemma_unspaced_one(m, 'm');
    } else if d == 0 && h == 0 && m == 0 {
        assert(nonzero_parts(d, h, m, s) =~= seq![ps]);
        lemma_join_one(ps);
        lemma_unspaced_one(s, 's');
    } else if d > 0 && h > 0 {
        assert(nonzero_parts(d, h, m, s) =~= seq![pd, ph]);
        lemma_join_two(pd, ph);
        lemma_unspaced_two(d, 'd', h, 'h');
    } else if d > 0 && m > 0 {
        assert(nonzero_parts(d, h, m, s) =~= seq![pd, pm]);
        lemma_join_two(pd, pm);
        lemma_unspaced_two(d, 'd', m, 'm');
    } else if d > 0 && s > 0 {
        assert(nonzero_parts(d, h, m, s) =~= seq![pd, ps]);
        lemma_join_two(pd, ps);
        lemma_unspaced_two(d, 'd', s, 's');
    } else if h > 0 && m > 0 {
        assert(nonzero_parts(d, h, m, s) =~= seq![ph, pm]);
        lemma_join_two(ph, pm);
        lemma_unspaced_two(h, 'h', m, 'm');
    } else if h > 0 && s > 0 {
        assert(nonzero_parts(d, h, m, s) =~= seq![ph, ps]);
        lemma_join_two(ph, ps);
        lemma_unspaced_two(h, 'h', s, 's');
    } else {
        assert(nonzero_parts(d, h, m, s) =~= seq![pm, ps]);
        lemma_join_two(pm, ps);
        lemma_unspaced_two(m, 'm', s, 's');
    }
}

/// A character a formatted duration may hold: a digit, a space, or one of
/// the unit letters `d`, `h`, `m`, `s`.
pub open spec fn duration_char(c: char) -> bool {
    is_digit(c) || c == ' ' || unit_of(c) is Some
}

proof fn lemma_join_chars(ps: Seq<Seq<char>>)
    requires
        forall|k: int, i: int| 0 <= k < ps.len() && 0 <= i < ps[k].len() ==> duration_char(#[trigger] ps[k][i]),
    ensures
        forall|i: int| 0 <= i < join_spaced(ps).len() ==> duration_char(#[trigger] join_spaced(ps)[i]),
    decreases ps.len(),
{
    if ps.len() == 1 {
        assert forall|i: int| 0 <= i < join_spaced(ps).len() implies duration_char(#[trigger] join_spaced(ps)[i]) by {
            assert(duration_char(ps[0][i]));
        }
    } else if ps.len() > 1 {
        let q = ps.drop_last();
        assert forall|k: int, i: int| 0 <= k < q.len() && 0 <= i < q[k].len() implies duration_char(#[trigger] q[k][i]) by {
            assert(q[k] == ps[k]);
            assert(duration_char(ps[k][i]));
        }
        lemma_join_chars(q);
        let j = join_spaced(q);
        let l = ps.last();
        assert forall|i: int| 0 <= i < join_spaced(ps).len() implies duration_char(#[trigger] join_spaced(ps)[i]) by {
            if i < j.len() {
                assert(join_spaced(ps)[i] == j[i]);
            } else if i == j.len() {
                assert(join_spaced(ps)[i] == ' ');
            } else {
                assert(join_spaced(ps)[i] == l[i - j.len() - 1]);
                assert(duration_char(ps[ps.len() - 1][i - j.len() - 1]));
            }
        }
    }
}

proof fn lemma_parts_chars(d: nat, h: nat, m: nat, s: nat)
    ensures
        forall|k: int, i: int|
            0 <= k < nonzero_parts(d, h, m, s).len() && 0 <= i < nonzero_parts(d, h, m, s)[k].len()
                ==> duration_char(#[trigger] nonzero_parts(d, h, m, s)[k][i]),
{
    lemma_decimal(d);
    lemma_decimal(h);
    lemma_decimal(m);
    lemma_decimal(s);
    let ps = nonzero_parts(d, h, m, s);
    assert forall|k: int, i: int| 0 <= k < ps.len() && 0 <= i < ps[k].len() implies duration_char(#[trigger] ps[k][i]) by {
        let p = ps[k];
        assert(p == unit_part(d, 'd') || p == unit_part(h, 'h') || p == unit_part(m, 'm') || p
            == unit_part(s, 's'));
        if i < p.len() - 1 {
            if p == unit_part(d, 'd') {
                assert(p[i] == decimal(d)[i]);
            } else if p == unit_part(h, 'h') {
                assert(p[i] == decimal(h)[i]);
            } else if p == unit_part(m, 'm') {
                assert(p[i] == decimal(m)[i]);
            } else {
                assert(p[i] == decimal(s)[i]);
            }
        }
    }
}

/// Law: a formatted duration holds only digits, spaces and the unit letters
/// `d`, `h`, `m`, `s`; it never uses weeks or years.
pub proof fn lemma_duration_text_units(d: nat, h: nat, m: nat, s: nat)
    ensures
        forall|i: int|
            0 <= i < duration_text(d, h, m, s).len() ==> duration_char(#[trigger] duration_text(d, h, m, s)[i]),
{
    if d == 0 && h == 0 && m == 0 && s == 0 {
    } else if d > 0 && h > 0 && m > 0 && s > 0 {
        let r = rounded_dhm(d, h, m, s);
        lemma_parts_chars(r.0, r.1, r.2, 0);
        lemma_join_chars(nonzero_parts(r.0, r.1, r.2, 0));
    } else {
        lemma_parts_chars(d, h, m, s);
        lemma_join_chars(nonzero_parts(d, h, m, s));
    }
}

} // verus!
