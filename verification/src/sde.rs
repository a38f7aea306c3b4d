//! Choosing the skill and implant records of the static data export. The rows
//! come in the order the caller walked the export's tables; what the rows
//! carry is already read out of the JSON (the dogma values that name an
//! attribute or give a bonus included).
use vstd::prelude::*;
use crate::attributes::Attribute;
use crate::reorder::is_permutation;
use crate::resolve::{contains_chars, contains_text, lowercased, to_lowercase};
use crate::text::chars_of;

verus! {

/// The category id of skills in the export.
pub const SKILL_CATEGORY: u64 = 16;

/// A row of `groups.jsonl`.
#[derive(Debug)]
pub struct SdeGroupRow {
    pub id: u64,
    /// `categoryID`, when it is an unsigned integer.
    pub category_id: Option<u64>,
    /// The English name, when there is one.
    pub name: Option<String>,
}

/// What a skill's dogma says of one of its two training attributes.
#[derive(Debug, Clone, Copy, PartialEq, Eq, Structural)]
pub enum DogmaAttribute {
    /// No such dogma value.
    Missing,
    /// A value that names no character attribute.
    Unknown,
    Known(Attribute),
}

/// A row of `types.jsonl` with what its dogma says of it as a skill.
#[derive(Debug)]
pub struct SdeSkillRow {
    pub type_id: u64,
    /// `groupID`, when it is an unsigned integer.
    pub group_id: Option<u64>,
    /// `published`, true when absent.
    pub published: bool,
    /// The type has a `typeDogma` record.
    pub has_dogma: bool,
    /// Dogma 180.
    pub primary: DogmaAttribute,
    /// Dogma 181.
    pub secondary: DogmaAttribute,
    /// Dogma 275 is present.
    pub has_time_constant: bool,
}

/// Why a skill row cannot become a record.
#[derive(Debug, Clone, Copy, PartialEq, Eq, Structural)]
pub enum SkillRowFault {
    MissingPrimary,
    MissingSecondary,
    MissingTimeConstant,
    UnknownPrimary,
    UnknownSecondary,
}

/// A row of `types.jsonl` with its implant bonuses: for each attribute the
/// non-zero bonus value, as an integer, when the dogma gives one.
#[derive(Debug)]
pub struct SdeImplantRow {
    pub type_id: u64,
    pub group_id: Option<u64>,
    pub published: bool,
    pub has_dogma: bool,
    pub intelligence: Option<i32>,
    pub charisma: Option<i32>,
    pub perception: Option<i32>,
    pub memory: Option<i32>,
    pub willpower: Option<i32>,
}

// ---------------------------------------------------------------------------
// Specification
// ---------------------------------------------------------------------------

/// A group of the skill category has this id.
pub open spec fn skill_group(groups: Seq<SdeGroupRow>, gid: u64) -> bool {
    exists|j: int| 0 <= j < groups.len() && #[trigger] groups[j].id == gid && groups[j].category_id == Some(SKILL_CATEGORY)
}

/// The group's lower-cased English name contains `implant`.
pub open spec fn implant_name(g: SdeGroupRow) -> bool {
    match g.name {
        Some(n) => contains_text(lowercased(n@), "implant"@),
        None => false,
    }
}

/// An implant group has this id.
pub open spec fn implant_group(groups: Seq<SdeGroupRow>, gid: u64) -> bool {
    exists|j: int| 0 <= j < groups.len() && #[trigger] groups[j].id == gid && implant_name(groups[j])
}

/// The row is a published skill with dogma.
pub open spec fn kept_skill(groups: Seq<SdeGroupRow>, t: SdeSkillRow) -> bool {
    &&& t.group_id matches Some(g) && skill_group(groups, g)
    &&& t.published
    &&& t.has_dogma
}

/// The first fault of a kept skill row, checked in this order: the primary
/// attribute present, the secondary present, the time constant present, the
/// primary known, the secondary known.
pub open spec fn skill_fault(t: SdeSkillRow) -> Option<SkillRowFault> {
    if t.primary is Missing {
        Some(SkillRowFault::MissingPrimary)
    } else if t.secondary is Missing {
        Some(SkillRowFault::MissingSecondary)
    } else if !t.has_time_constant {
        Some(SkillRowFault::MissingTimeConstant)
    } else if t.primary is Unknown {
        Some(SkillRowFault::UnknownPrimary)
    } else if t.secondary is Unknown {
        Some(SkillRowFault::UnknownSecondary)
    } else {
        None
    }
}

/// The row is a published implant with dogma and at least one bonus.
pub open spec fn kept_implant(groups: Seq<SdeGroupRow>, t: SdeImplantRow) -> bool {
    &&& t.group_id matches Some(g) && implant_group(groups, g)
    &&& t.published
    &&& t.has_dogma
    &&& (t.intelligence is Some || t.charisma is Some || t.perception is Some || t.memory is Some
        || t.willpower is Some)
}

/// Indices below `m` of the rows that `keep` selects, in row order.
pub open spec fn kept_below(n: int, keep: spec_fn(int) -> bool, m: int) -> Seq<usize>
    decreases m,
{
    if m <= 0 {
        Seq::empty()
    } else {
        let p = kept_below(n, keep, m - 1);
        if keep(m - 1) {
            p.push((m - 1) as usize)
        } else {
            p
        }
    }
}

/// `order` sorts positions `0..keys.len()` by key, equal keys in position
/// order (a stable sort).
pub open spec fn sorted_by_key(keys: Seq<u32>, order: Seq<usize>) -> bool {
    &&& is_permutation(order, keys.len() as int)
    &&& forall|a: int, b: int|
        0 <= a < b < order.len() ==> keys[order[a] as int] < keys[order[b] as int] || (keys[order[a] as int]
            == keys[order[b] as int] && order[a] < order[b])
}

/// The keys of the rows `sel`: their ids taken as `u32`.
pub open spec fn sel_keys(sel: Seq<usize>, ids: spec_fn(usize) -> u64) -> Seq<u32> {
    sel.map_values(|i: usize| ids(i) as u32)
}

/// `r` is the rows `sel` ordered by their type ids taken as `u32`, stably.
pub open spec fn ordered_selection(sel: Seq<usize>, ids: spec_fn(usize) -> u64, r: Seq<usize>) -> bool {
    exists|order: Seq<usize>|
        #[trigger] sorted_by_key(sel_keys(sel, ids), order) && r == order.map_values(
            |t: usize| sel[t as int],
        )
}

pub open spec fn skill_ids(types: Seq<SdeSkillRow>) -> spec_fn(usize) -> u64 {
    |i: usize| types[i as int].type_id
}

pub open spec fn implant_ids(types: Seq<SdeImplantRow>) -> spec_fn(usize) -> u64 {
    |i: usize| types[i as int].type_id
}

pub open spec fn skill_keep(groups: Seq<SdeGroupRow>, types: Seq<SdeSkillRow>) -> spec_fn(int) -> bool {
    |i: int| kept_skill(groups, types[i])
}

pub open spec fn implant_keep(groups: Seq<SdeGroupRow>, types: Seq<SdeImplantRow>) -> spec_fn(int) -> bool {
    |i: int| kept_implant(groups, types[i])
}

// ---------------------------------------------------------------------------
// Sorting by key
// ---------------------------------------------------------------------------

/// Positions `0..keys.len()` sorted by key, equal keys in position order.
fn stable_order(keys: &Vec<u32>) -> (order: Vec<usize>)
    ensures
        sorted_by_key(keys@, order@),
{
    let n = keys.len();
    let mut order: Vec<usize> = Vec::new();
    let mut i: usize = 0;
    while i < n
        invariant
            i <= n == keys@.len(),
            order@.len() == i,
            order@.no_duplicates(),
            forall|k: int| 0 <= k < order@.len() ==> order@[k] < i,
            forall|y: usize| y < i ==> order@.contains(y),
            forall|a: int, b: int|
                0 <= a < b < order@.len() ==> keys@[order@[a] as int] < keys@[order@[b] as int] || (
                keys@[order@[a] as int] == keys@[order@[b] as int] && order@[a] < order@[b]),
        decreases n - i,
    {
        let mut p: usize = order.len();
        while p > 0 && keys[i] < keys[order[p - 1]]
            invariant
                i < n == keys@.len(),
                order@.len() == i,
                p <= order@.len(),
                forall|k: int| 0 <= k < order@.len() ==> order@[k] < i,
                forall|k: int| p <= k < order@.len() ==> keys@[i as int] < keys@[order@[k] as int],
            decreases p,
        {
            p = p - 1;
        }
        let ghost old_order = order@;
        order.insert(p, i);
        proof {
            assert forall|k: int| 0 <= k < order@.len() implies #[trigger] order@[k] == if k < p {
                old_order[k]
            } else if k == p {
                i
            } else {
                old_order[k - 1]
            } by {}
            assert forall|a: int, b: int| 0 <= a < b < order@.len() implies keys@[order@[a] as int]
                < keys@[order@[b] as int] || (keys@[order@[a] as int] == keys@[order@[b] as int]
                && order@[a] < order@[b]) by {
                if b == p {
                    assert(!(keys@[i as int] < keys@[old_order[a] as int])) by {
                        if p > 0 && a < p - 1 {
                            assert(keys@[old_order[a] as int] < keys@[old_order[p - 1] as int] || (
                            keys@[old_order[a] as int] == keys@[old_order[p - 1] as int]
                                && old_order[a] < old_order[p - 1]));
                        }
                    }
                }
            }
            assert forall|y: usize| y < i + 1 implies order@.contains(y) by {
                if y == i {
                    assert(order@[p as int] == y);
                } else {
                    assert(old_order.contains(y));
                    let k = choose|k: int| 0 <= k < old_order.len() && old_order[k] == y;
                    if k < p {
                        assert(order@[k] == y);
                    } else {
                        assert(order@[k + 1] == y);
                    }
                }
            }
            assert forall|a: int, b: int|
                0 <= a < order@.len() && 0 <= b < order@.len() && a != b implies order@[a]
                != order@[b] by {
                if a != p && b != p {
                    let oa = if a < p { a } else { a - 1 };
                    let ob = if b < p { b } else { b - 1 };
                    assert(order@[a] == old_order[oa] && order@[b] == old_order[ob]);
                }
            }
        }
        i = i + 1;
    }
    proof {
        crate::reorder::lemma_distinct_len(order@, n);
    }
    order
}

/// The rows `sel` in the order `stable_order` gives their keys.
fn order_rows(sel: &Vec<usize>, keys: &Vec<u32>, Ghost(ids): Ghost<spec_fn(usize) -> u64>) -> (r: Vec<usize>)
    requires
        keys@ == sel_keys(sel@, ids),
    ensures
        ordered_selection(sel@, ids, r@),
{
    let order = stable_order(keys);
    let mut r: Vec<usize> = Vec::new();
    let mut t: usize = 0;
    while t < order.len()
        invariant
            t <= order@.len() == sel@.len(),
            keys@ == sel_keys(sel@, ids),
            sorted_by_key(keys@, order@),
            r@ == order@.take(t as int).map_values(|q: usize| sel@[q as int]),
        decreases order@.len() - t,
    {
        proof {
            assert(order@.take(t + 1).map_values(|q: usize| sel@[q as int]) =~= order@.take(
                t as int,
            ).map_values(|q: usize| sel@[q as int]).push(sel@[order@[t as int] as int]));
        }
        r.push(sel[order[t]]);
        t = t + 1;
    }
    proof {
        assert(order@.take(order@.len() as int) =~= order@);
    }
    r
}

// ---------------------------------------------------------------------------
// Groups
// ---------------------------------------------------------------------------

fn is_skill_group(groups: &[SdeGroupRow], gid: u64) -> (b: bool)
    ensures
        b == skill_group(groups@, gid),
{
    let mut j: usize = 0;
    while j < groups.len()
        invariant
            j <= groups@.len(),
            forall|q: int| 0 <= q < j ==> !(#[trigger] groups@[q].id == gid && groups@[q].category_id == Some(SKILL_CATEGORY)),
        decreases groups.len() - j,
    {
        if groups[j].id == gid && groups[j].category_id == Some(SKILL_CATEGORY) {
            return true;
        }
        j = j + 1;
    }
    false
}

fn is_implant_group(groups: &[SdeGroupRow], gid: u64) -> (b: bool)
    ensures
        b == implant_group(groups@, gid),
{
    proof {
        reveal_strlit("implant");
    }
    let needle = chars_of("implant");
    let mut j: usize = 0;
    while j < groups.len()
        invariant
            j <= groups@.len(),
            needle@ == "implant"@,
            forall|q: int| 0 <= q < j ==> !(#[trigger] groups@[q].id == gid && implant_name(groups@[q])),
        decreases groups.len() - j,
    {
        if groups[j].id == gid {
            match &groups[j].name {
                Some(n) => {
                    let lower = to_lowercase(n.as_str());
                    let lc = chars_of(lower.as_str());
                    if contains_chars(lc.as_slice(), needle.as_slice()) {
                        return true;
                    }
                },
                None => {},
            }
        }
        j = j + 1;
    }
    false
}

// ---------------------------------------------------------------------------
// Selection
// ---------------------------------------------------------------------------

fn row_fault(t: &SdeSkillRow) -> (r: Option<SkillRowFault>)
    ensures
        r == skill_fault(*t),
{
    if t.primary == DogmaAttribute::Missing {
        Some(SkillRowFault::MissingPrimary)
    } else if t.secondary == DogmaAttribute::Missing {
        Some(SkillRowFault::MissingSecondary)
    } else if !t.has_time_constant {
        Some(SkillRowFault::MissingTimeConstant)
    } else if t.primary == DogmaAttribute::Unknown {
        Some(SkillRowFault::UnknownPrimary)
    } else if t.secondary == DogmaAttribute::Unknown {
        Some(SkillRowFault::UnknownSecondary)
    } else {
        None
    }
}

fn key_of(id: u64) -> (k: u32)
    ensures
        k == id as u32,
{
    #[verifier::truncate]
    (id as u32)
}

/// The published skills with dogma among the rows, ordered by type id taken
/// as `u32` (equal ids in row order); or the first such row, in row order,
/// that cannot become a record, with its fault.
pub fn select_skills(groups: &[SdeGroupRow], types: &[SdeSkillRow]) -> (r: Result<Vec<usize>, (usize, SkillRowFault)>)
    ensures
        match r {
            Ok(v) => {
                &&& forall|i: int| 0 <= i < types@.len() && kept_skill(groups@, types@[i]) ==> #[trigger] skill_fault(types@[i]) is None
                &&& ordered_selection(kept_below(types@.len() as int, skill_keep(groups@, types@), types@.len() as int), skill_ids(types@), v@)
            },
            Err((i, f)) => {
                &&& i < types@.len()
                &&& kept_skill(groups@, types@[i as int])
                &&& skill_fault(types@[i as int]) == Some(f)
                &&& forall|j: int| 0 <= j < i && kept_skill(groups@, types@[j]) ==> #[trigger] skill_fault(types@[j]) is None
            },
        },
{
    let ghost keep = skill_keep(groups@, types@);
    let ghost ids = skill_ids(types@);
    let n = types.len();
    let mut sel: Vec<usize> = Vec::new();
    let mut keys: Vec<u32> = Vec::new();
    let mut i: usize = 0;
    while i < n
        invariant
            i <= n == types@.len(),
            keep == skill_keep(groups@, types@),
            ids == skill_ids(types@),
            sel@ == kept_below(n as int, keep, i as int),
            keys@ == sel_keys(sel@, ids),
            forall|j: int| 0 <= j < i && kept_skill(groups@, types@[j]) ==> #[trigger] skill_fault(types@[j]) is None,
        decreases n - i,
    {
        let t = &types[i];
        let kept = match t.group_id {
            Some(g) => is_skill_group(groups, g) && t.published && t.has_dogma,
            None => false,
        };
        proof {
            assert(kept == keep(i as int));
        }
        if kept {
            match row_fault(t) {
                Some(f) => {
                    return Err((i, f));
                },
                None => {},
            }
            sel.push(i);
            keys.push(key_of(t.type_id));
            proof {
                assert(keys@ =~= sel_keys(sel@, ids));
            }
        }
        i = i + 1;
    }
    Ok(order_rows(&sel, &keys, Ghost(ids)))
}

/// The published implants with dogma and at least one bonus among the rows,
/// ordered by type id taken as `u32` (equal ids in row order).
pub fn select_implants(groups: &[SdeGroupRow], types: &[SdeImplantRow]) -> (r: Vec<usize>)
    ensures
        ordered_selection(kept_below(types@.len() as int, implant_keep(groups@, types@), types@.len() as int), implant_ids(types@), r@),
{
    let ghost keep = implant_keep(groups@, types@);
    let ghost ids = implant_ids(types@);
    let n = types.len();
    let mut sel: Vec<usize> = Vec::new();
    let mut keys: Vec<u32> = Vec::new();
    let mut i: usize = 0;
    while i < n
        invariant
            i <= n == types@.len(),
            keep == implant_keep(groups@, types@),
            ids == implant_ids(types@),
            sel@ == kept_below(n as int, keep, i as int),
            keys@ == sel_keys(sel@, ids),
        decreases n - i,
    {
        let t = &types[i];
        let has_bonus = t.intelligence.is_some() || t.charisma.is_some() || t.perception.is_some()
            || t.memory.is_some() || t.willpower.is_some();
        let kept = match t.group_id {
            Some(g) => is_implant_group(groups, g) && t.published && t.has_dogma && has_bonus,
            None => false,
        };
        proof {
            assert(kept == keep(i as int));
        }
        if kept {
            sel.push(i);
            keys.push(key_of(t.type_id));
            proof {
                assert(keys@ =~= sel_keys(sel@, ids));
            }
        }
        i = i + 1;
    }
    order_rows(&sel, &keys, Ghost(ids))
}

} // verus!
