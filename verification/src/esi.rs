//! ESI response data as plain values, the messages for failed ESI calls, and
//! the assembly of one character's ESI snapshot.
use vstd::prelude::*;
use crate::attributes::{base_get, Attribute, BaseAttributes};
use crate::date::iso_unix;
use crate::resolve::{contains_chars, contains_text};
use crate::text::{chars_of, decimal, extend_str, string_from, u64_to_chars};

verus! {

// ---------------------------------------------------------------------------
// Errors
// ---------------------------------------------------------------------------

/// Error from an ESI API call.
#[derive(Debug)]
pub struct EsiError {
    pub endpoint: String,
    pub status: u16,
}

/// The explanation that follows the status code in an ESI error message.
pub open spec fn esi_status_text(status: u16) -> Seq<char> {
    if status == 401 {
        " - Unauthorized: token expired or invalid. Re-authenticate."@
    } else if status == 403 {
        " - Forbidden: missing scope or insufficient permissions"@
    } else if status == 404 {
        " - Not Found: character ID may be wrong"@
    } else if status == 429 {
        " - Too Many Requests: rate limited by ESI"@
    } else if 500 <= status <= 599 {
        " - Server Error: EVE backend issue"@
    } else {
        " - HTTP Error"@
    }
}

impl EsiError {
    /// `[<endpoint>] <status> - <explanation>`.
    pub fn message(&self) -> (r: String)
        ensures
            r@ == "["@ + self.endpoint@ + "] "@ + decimal(self.status as nat) + esi_status_text(
                self.status,
            ),
    {
        let mut v: Vec<char> = Vec::new();
        extend_str(&mut v, "[");
        extend_str(&mut v, self.endpoint.as_str());
        extend_str(&mut v, "] ");
        let digits = u64_to_chars(self.status as u64);
        crate::text::extend_chars(&mut v, digits.as_slice());
        let s = self.status;
        if s == 401 {
            extend_str(&mut v, " - Unauthorized: token expired or invalid. Re-authenticate.");
        } else if s == 403 {
            extend_str(&mut v, " - Forbidden: missing scope or insufficient permissions");
        } else if s == 404 {
            extend_str(&mut v, " - Not Found: character ID may be wrong");
        } else if s == 429 {
            extend_str(&mut v, " - Too Many Requests: rate limited by ESI");
        } else if 500 <= s && s <= 599 {
            extend_str(&mut v, " - Server Error: EVE backend issue");
        } else {
            extend_str(&mut v, " - HTTP Error");
        }
        string_from(v.as_slice())
    }
}

// ---------------------------------------------------------------------------
// Responses
// ---------------------------------------------------------------------------

/// GET /characters/{character_id}/attributes/
#[derive(Debug)]
pub struct EsCharacterAttributes {
    pub perception: i64,
    pub memory: i64,
    pub willpower: i64,
    pub intelligence: i64,
    pub charisma: i64,
    pub accrued_remap_cooldown_date: Option<String>,
    pub bonus_remaps: Option<i64>,
    pub last_remap_date: Option<String>,
}

/// One entry of GET /characters/{character_id}/skillqueue/ (ESI reports the
/// skill points as integers).
#[derive(Debug)]
pub struct EsSkillQueueEntry {
    pub skill_id: i32,
    pub finished_level: i32,
    pub queue_position: i32,
    /// Cumulative SP at the start of this level transition.
    pub level_start_sp: i64,
    /// Cumulative SP where training actually started for this entry.
    pub training_start_sp: i64,
    /// Cumulative SP at the end of this level transition.
    pub level_end_sp: i64,
    pub start_date: Option<String>,
    pub finish_date: Option<String>,
}

/// One trained skill from GET /characters/{character_id}/skills/.
#[derive(Debug, Clone, Copy)]
pub struct EsTrainedSkill {
    pub skill_id: i32,
    pub trained_skill_level: i32,
}

/// All ESI data the optimizer needs for one character.
#[derive(Debug)]
pub struct CharacterData {
    /// Attributes as ESI reports them (implants included), when fetched.
    pub base_attributes: Option<BaseAttributes>,
    /// Bonus remaps remaining.
    pub bonus_remaps: Option<u32>,
    /// Date the accrued remap cooldown ends, when reported.
    pub accrued_remap_cooldown_date: Option<String>,
    /// Skill queue entries.
    pub skill_queue: Vec<EsSkillQueueEntry>,
    /// Active implant type IDs on the current clone.
    pub active_implant_ids: Vec<u32>,
    /// (skill id, trained level) of every skill trained to level 1 or more,
    /// one pair per skill id.
    pub trained_skills: Vec<(u32, u8)>,
}

pub open spec fn attrs_from_esi(a: EsCharacterAttributes) -> BaseAttributes {
    BaseAttributes {
        perception: a.perception as u32,
        memory: a.memory as u32,
        willpower: a.willpower as u32,
        intelligence: a.intelligence as u32,
        charisma: a.charisma as u32,
    }
}

/// Law: each attribute ESI reports lands in the field of the same attribute.
pub proof fn lemma_esi_attributes_by_name(a: EsCharacterAttributes)
    ensures
        base_get(attrs_from_esi(a), Attribute::Perception) == a.perception as u32,
        base_get(attrs_from_esi(a), Attribute::Memory) == a.memory as u32,
        base_get(attrs_from_esi(a), Attribute::Willpower) == a.willpower as u32,
        base_get(attrs_from_esi(a), Attribute::Intelligence) == a.intelligence as u32,
        base_get(attrs_from_esi(a), Attribute::Charisma) == a.charisma as u32,
{
}

/// Index of the first pair with this skill id, or -1.
pub open spec fn level_index(p: Seq<(u32, u8)>, id: u32) -> int
    decreases p.len(),
{
    if p.len() == 0 {
        -1
    } else if p[0].0 == id {
        0
    } else {
        let r = level_index(p.drop_first(), id);
        if r < 0 {
            -1
        } else {
            r + 1
        }
    }
}

/// Record `lv` as the level of skill `id`: the pair with that id is replaced,
/// or a new pair is appended.
pub open spec fn put_level(p: Seq<(u32, u8)>, id: u32, lv: u8) -> Seq<(u32, u8)> {
    let k = level_index(p, id);
    if k >= 0 {
        p.update(k, (id, lv))
    } else {
        p.push((id, lv))
    }
}

/// No skill id occurs twice.
pub open spec fn distinct_ids(p: Seq<(u32, u8)>) -> bool {
    forall|a: int, b: int| 0 <= a < b < p.len() ==> #[trigger] p[a].0 != #[trigger] p[b].0
}

/// The trained skills at level 1 or more, one pair per skill id holding the
/// level of the last ESI record of that id; ids in order of first appearance.
pub open spec fn trained_levels(s: Seq<EsTrainedSkill>) -> Seq<(u32, u8)>
    decreases s.len(),
{
    if s.len() == 0 {
        Seq::empty()
    } else {
        let p = trained_levels(s.drop_last());
        if s.last().trained_skill_level >= 1 {
            put_level(p, s.last().skill_id as u32, s.last().trained_skill_level as u8)
        } else {
            p
        }
    }
}

proof fn lemma_level_index_char(p: Seq<(u32, u8)>, id: u32, k: int)
    requires
        -1 <= k < p.len(),
        k >= 0 ==> p[k].0 == id,
        forall|j: int| 0 <= j < p.len() && (k < 0 || j < k) ==> p[j].0 != id,
    ensures
        level_index(p, id) == k,
    decreases p.len(),
{
    if p.len() > 0 && p[0].0 != id {
        let t = p.drop_first();
        assert forall|j: int| 0 <= j < t.len() && (k - 1 < 0 || j < k - 1) implies t[j].0 != id by {
            assert(t[j] == p[j + 1]);
        }
        if k > 0 {
            lemma_level_index_char(t, id, k - 1);
        } else {
            lemma_level_index_char(t, id, -1);
        }
    }
}

/// Position of the pair with this skill id.
fn find_level(p: &Vec<(u32, u8)>, id: u32) -> (r: Option<usize>)
    ensures
        match r {
            Some(j) => level_index(p@, id) == j && j < p@.len() && p@[j as int].0 == id,
            None => level_index(p@, id) == -1 && forall|q: int| 0 <= q < p@.len() ==> p@[q].0 != id,
        },
{
    let m = p.len();
    let mut j: usize = 0;
    while j < m
        invariant
            j <= m == p@.len(),
            forall|q: int| 0 <= q < j ==> p@[q].0 != id,
        decreases m - j,
    {
        if p[j].0 == id {
            proof {
                lemma_level_index_char(p@, id, j as int);
            }
            return Some(j);
        }
        j = j + 1;
    }
    proof {
        lemma_level_index_char(p@, id, -1);
    }
    None
}

/// The trained skills of ESI's list as distinct (id, level) pairs.
fn trained_levels_exec(skills: &Vec<EsTrainedSkill>) -> (r: Vec<(u32, u8)>)
    ensures
        r@ == trained_levels(skills@),
        distinct_ids(r@),
{
    let mut out: Vec<(u32, u8)> = Vec::new();
    let n = skills.len();
    let mut i: usize = 0;
    while i < n
        invariant
            i <= n == skills@.len(),
            out@ == trained_levels(skills@.take(i as int)),
            distinct_ids(out@),
        decreases n - i,
    {
        proof {
            assert(skills@.take(i as int + 1).drop_last() =~= skills@.take(i as int));
        }
        let s = skills[i];
        if s.trained_skill_level >= 1 {
            let id = s.skill_id as u32;
            let lv = s.trained_skill_level as u8;
            match find_level(&out, id) {
                Some(j) => {
                    let ghost before = out@;
                    out.set(j, (id, lv));
                    proof {
                        assert forall|x: int, y: int| 0 <= x < y < out@.len() implies #[trigger] out@[x].0
                            != #[trigger] out@[y].0 by {
                            assert(before[x].0 != before[y].0);
                        }
                    }
                },
                None => {
                    let ghost before = out@;
                    out.push((id, lv));
                    proof {
                        assert forall|x: int, y: int| 0 <= x < y < out@.len() implies #[trigger] out@[x].0
                            != #[trigger] out@[y].0 by {
                            if y < before.len() {
                                assert(before[x].0 != before[y].0);
                            } else {
                                assert(out@[x] == before[x]);
                            }
                        }
                    }
                },
            }
        }
        i = i + 1;
    }
    proof {
        assert(skills@.take(n as int) =~= skills@);
    }
    out
}

impl CharacterData {
    /// Assemble the snapshot from what the ESI calls returned (`None` or empty
    /// where a call failed): attributes are cast to `u32`, a negative bonus-remap
    /// count becomes zero, and only skills trained to level 1 or more are kept.
    pub fn assemble(
        attrs: Option<EsCharacterAttributes>,
        skill_queue: Vec<EsSkillQueueEntry>,
        trained: &Vec<EsTrainedSkill>,
        active_implant_ids: Vec<u32>,
    ) -> (r: Self)
        ensures
            r.base_attributes == match attrs {
                Some(a) => Some(attrs_from_esi(a)),
                None => None::<BaseAttributes>,
            },
            r.base_attributes is Some <==> attrs is Some,
            r.base_attributes matches Some(b) ==> {
                &&& b.perception == attrs->0.perception as u32
                &&& b.memory == attrs->0.memory as u32
                &&& b.willpower == attrs->0.willpower as u32
                &&& b.intelligence == attrs->0.intelligence as u32
                &&& b.charisma == attrs->0.charisma as u32
            },
            r.bonus_remaps == match attrs {
                Some(a) => match a.bonus_remaps {
                    Some(v) => Some(
                        if v < 0 {
                            0u32
                        } else {
                            v as u32
                        },
                    ),
                    None => None,
                },
                None => None,
            },
            r.accrued_remap_cooldown_date == match attrs {
                Some(a) => a.accrued_remap_cooldown_date,
                None => None,
            },
            r.skill_queue == skill_queue,
            r.active_implant_ids == active_implant_ids,
            r.trained_skills@ == trained_levels(trained@),
            distinct_ids(r.trained_skills@),
    {
        let trained_skills = trained_levels_exec(trained);
        match attrs {
            Some(a) => {
                let base = BaseAttributes {
                    perception: a.perception as u32,
                    memory: a.memory as u32,
                    willpower: a.willpower as u32,
                    intelligence: a.intelligence as u32,
                    charisma: a.charisma as u32,
                };
                let bonus = match a.bonus_remaps {
                    Some(v) => Some(
                        if v < 0 {
                            0u32
                        } else {
                            v as u32
                        },
                    ),
                    None => None,
                };
                CharacterData {
                    base_attributes: Some(base),
                    bonus_remaps: bonus,
                    accrued_remap_cooldown_date: a.accrued_remap_cooldown_date,
                    skill_queue,
                    active_implant_ids,
                    trained_skills,
                }
            },
            None => CharacterData {
                base_attributes: None,
                bonus_remaps: None,
                accrued_remap_cooldown_date: None,
                skill_queue,
                active_implant_ids,
                trained_skills,
            },
        }
    }
}

// ---------------------------------------------------------------------------
// Skill queue rows of the legacy ESI client
// ---------------------------------------------------------------------------

/// A row of `/characters/{id}/skillqueue/` as the legacy client reads it.
#[derive(Debug)]
pub struct SkillQueueRow {
    pub skill_id: u32,
    /// ISO-8601 finish time; absent for paused training.
    pub finish_date: Option<String>,
    pub is_queued: bool,
    /// Level trained when this entry completes.
    pub trained_skill_level: u8,
}

/// A skill queue entry with its timing.
#[derive(Debug, Clone, Copy)]
pub struct QueuedSkill {
    pub id: u32,
    /// Level trained when this entry completes.
    pub level: u8,
    /// Total duration in seconds for this queue entry.
    pub duration: u64,
    /// Seconds remaining until completion.
    pub remaining_sec: u64,
}

/// Duration the legacy client assigns a queue row at time `now`: for the
/// actively training row, the seconds from `now` to its finish time (a finish
/// time that does not parse counts as `now`); zero for queued rows and rows
/// without a finish time.
pub open spec fn row_duration(finish: Option<Seq<char>>, is_queued: bool, now: u64) -> int {
    match finish {
        Some(f) => {
            let fin = match iso_unix(f) {
                Some(t) => t as int,
                None => now as int,
            };
            if !is_queued {
                fin - now
            } else {
                0
            }
        },
        None => 0,
    }
}

/// Duration in seconds of a skill queue entry relative to `now`.
pub fn compute_duration_secs(row: &SkillQueueRow, now: u64) -> (r: i64)
    requires
        now <= i64::MAX,
    ensures
        r == row_duration(
            match row.finish_date {
                Some(f) => Some(f@),
                None => None,
            },
            row.is_queued,
            now,
        ),
{
    match &row.finish_date {
        Some(finish) => {
            let fin: u64 = match crate::date::iso_to_unix_secs(finish.as_str()) {
                Some(t) => t,
                None => now,
            };
            if !row.is_queued {
                fin as i64 - now as i64
            } else {
                0
            }
        },
        None => 0,
    }
}

/// Remaining seconds of a queue entry: the legacy client counts none for every
/// row (the active row's time is carried by its duration).
pub fn compute_remaining_secs(row: &SkillQueueRow, now: u64) -> (r: i64)
    ensures
        r == 0,
{
    0
}


/// The text of a failed call says the token was refused.
pub open spec fn unauthorized_text(t: Seq<char>) -> bool {
    contains_text(t, "401"@) || contains_text(t, "Unauthorized"@)
}

/// Whether a failed call's error text calls for a token refresh and one
/// retry: it mentions `401` or `Unauthorized`.
pub fn is_unauthorized(error_text: &str) -> (r: bool)
    ensures
        r == unauthorized_text(error_text@),
{
    let t = chars_of(error_text);
    let a = chars_of("401");
    let b = chars_of("Unauthorized");
    contains_chars(t.as_slice(), a.as_slice()) || contains_chars(t.as_slice(), b.as_slice())
}

} // verus!
