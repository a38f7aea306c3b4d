//! When the next normal remap is available and how many bonus remaps there
//! are: the command-line flags, else what ESI reports, else none.
use vstd::prelude::*;
use crate::accounts::now_secs;
use crate::cli::OptimizeArgs;
use crate::esi::CharacterData;

verus! {

/// The Unix time, in seconds, of an RFC 3339 date-time text, if it is one.
pub uninterp spec fn rfc3339_unix(text: Seq<char>) -> Option<int>;

/// `DateTime::parse_from_rfc3339` of chrono, then `timestamp`: the Unix time
/// of the text, by name; `None` when chrono refuses the text.
#[verifier::external_body]
pub fn rfc3339_to_unix(text: &str) -> (r: Option<i64>)
    ensures
        match r {
            Some(t) => rfc3339_unix(text@) == Some(t as int),
            None => rfc3339_unix(text@) is None,
        },
{
    match chrono::DateTime::parse_from_rfc3339(text) {
        Ok(d) => Some(d.timestamp()),
        Err(_) => None,
    }
}

/// Seconds from `now` until a cooldown date, zero once it has passed.
pub open spec fn cooldown_offset(cooldown_date: Option<String>, now: u64) -> Option<u64> {
    match cooldown_date {
        None => None,
        Some(s) => match rfc3339_unix(s@) {
            None => None,
            Some(t) => Some(
                if t <= now {
                    0u64
                } else {
                    (t - now) as u64
                },
            ),
        },
    }
}

/// Seconds from `now` until the remap cooldown date ESI reports; zero once
/// it has passed; `None` when there is no date or it does not read as
/// RFC 3339.
pub fn cooldown_offset_secs(cooldown_date: &Option<String>, now: u64) -> (r: Option<u64>)
    ensures
        r == cooldown_offset(*cooldown_date, now),
{
    match cooldown_date {
        None => None,
        Some(s) => match rfc3339_to_unix(s.as_str()) {
            None => None,
            Some(t) => {
                if (t as i128) <= (now as i128) {
                    Some(0)
                } else {
                    Some((t as i128 - now as i128) as u64)
                }
            },
        },
    }
}

/// When the normal remap becomes available.
#[derive(Debug, PartialEq, Eq)]
pub enum RemapStart {
    /// The `--remap-available` duration text, to be read as a duration.
    Given(String),
    /// This many seconds from now.
    InSeconds(u64),
}

pub open spec fn remap_start_for(
    remap_available: Option<String>,
    esi: Option<CharacterData>,
    now: u64,
) -> RemapStart {
    match remap_available {
        Some(s) => RemapStart::Given(s),
        None => match esi {
            Some(d) => RemapStart::InSeconds(
                match cooldown_offset(d.accrued_remap_cooldown_date, now) {
                    Some(v) => v,
                    None => 0,
                },
            ),
            None => RemapStart::InSeconds(0),
        },
    }
}

/// The remap availability at `now`: the flag's duration when it is given,
/// else ESI's cooldown date as an offset (zero when it has passed, is absent
/// or does not read), else now.
pub fn remap_start(args: &OptimizeArgs, esi_data: &Option<CharacterData>, now: u64) -> (r: RemapStart)
    ensures
        r == remap_start_for(args.remap_available, *esi_data, now),
{
    match &args.remap_available {
        Some(s) => RemapStart::Given(s.clone()),
        None => match esi_data {
            Some(d) => match cooldown_offset_secs(&d.accrued_remap_cooldown_date, now) {
                Some(v) => RemapStart::InSeconds(v),
                None => RemapStart::InSeconds(0),
            },
            None => RemapStart::InSeconds(0),
        },
    }
}

/// The remap availability at the current time of the system clock.
pub fn remap_start_now(args: &OptimizeArgs, esi_data: &Option<CharacterData>) -> (r: RemapStart)
    ensures
        exists|now: u64| r == remap_start_for(args.remap_available, *esi_data, now),
{
    let now = now_secs();
    remap_start(args, esi_data, now)
}

/// The number of bonus remaps: the flag's, else ESI's, else none.
pub fn bonus_remaps_of(args: &OptimizeArgs, esi_data: &Option<CharacterData>) -> (r: Option<u32>)
    ensures
        r == match args.bonus_remaps {
            Some(n) => Some(n),
            None => match *esi_data {
                Some(d) => d.bonus_remaps,
                None => None,
            },
        },
{
    match args.bonus_remaps {
        Some(n) => Some(n),
        None => match esi_data {
            Some(d) => d.bonus_remaps,
            None => None,
        },
    }
}

} // verus!
