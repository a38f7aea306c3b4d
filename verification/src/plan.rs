//! The level transitions the optimizer plans: one per queued skill below
//! level 5 whose record the static data has.
use vstd::prelude::*;
use crate::esi::QueuedSkill;
use crate::reorder::{PlanEntry, SkillInfo};

verus! {

/// A queued skill taken into the plan.
#[derive(Debug, Clone)]
pub struct PlanSlot {
    /// Index in the queue.
    pub queued_index: usize,
    /// Index of the skill's (first) record in the static data.
    pub record_index: usize,
    /// The transition to the next level.
    pub entry: PlanEntry,
}

/// Index of the first record with this id, or -1.
pub open spec fn first_record(db: Seq<SkillInfo>, id: u32) -> int
    decreases db.len(),
{
    if db.len() == 0 {
        -1
    } else if db[0].id == id {
        0
    } else {
        let r = first_record(db.drop_first(), id);
        if r < 0 {
            -1
        } else {
            r + 1
        }
    }
}

/// The queue indices taken into the plan, with their record indices, in
/// queue order: skills below level 5 that the data knows.
pub open spec fn planned(qs: Seq<QueuedSkill>, db: Seq<SkillInfo>) -> Seq<(int, int)>
    decreases qs.len(),
{
    if qs.len() == 0 {
        Seq::empty()
    } else {
        let prev = planned(qs.drop_last(), db);
        let q = qs.last();
        let r = first_record(db, q.id);
        if q.level >= 5 || r < 0 {
            prev
        } else {
            prev.push((qs.len() - 1, r))
        }
    }
}

/// The slot matches queue entry `k` and record `r`.
pub open spec fn slot_matches(
    s: PlanSlot,
    qs: Seq<QueuedSkill>,
    db: Seq<SkillInfo>,
    k: int,
    r: int,
) -> bool {
    &&& s.queued_index == k
    &&& s.record_index == r
    &&& s.entry.skill_id == qs[k].id
    &&& s.entry.target_level == qs[k].level + 1
    &&& s.entry.prerequisites@ == db[r].prerequisites@
}

proof fn lemma_first_record(db: Seq<SkillInfo>, id: u32, k: int)
    requires
        -1 <= k < db.len(),
        k >= 0 ==> db[k].id == id,
        forall|j: int| 0 <= j < db.len() && (k < 0 || j < k) ==> #[trigger] db[j].id != id,
    ensures
        first_record(db, id) == k,
    decreases db.len(),
{
    if db.len() > 0 && db[0].id != id {
        let t = db.drop_first();
        assert forall|j: int| 0 <= j < t.len() && (k - 1 < 0 || j < k - 1) implies #[trigger] t[j].id
            != id by {
            assert(t[j] == db[j + 1]);
        }
        if k > 0 {
            lemma_first_record(t, id, k - 1);
        } else {
            lemma_first_record(t, id, -1);
        }
    }
}

fn find_record(db: &[SkillInfo], id: u32) -> (r: Option<usize>)
    ensures
        match r {
            Some(k) => k < db@.len() && first_record(db@, id) == k as int,
            None => first_record(db@, id) == -1,
        },
{
    let n = db.len();
    let mut i: usize = 0;
    while i < n
        invariant
            i <= n == db@.len(),
            forall|j: int| 0 <= j < i ==> #[trigger] db@[j].id != id,
        decreases n - i,
    {
        if db[i].id == id {
            proof {
                lemma_first_record(db@, id, i as int);
            }
            return Some(i);
        }
        i = i + 1;
    }
    proof {
        lemma_first_record(db@, id, -1);
    }
    None
}

fn copy_prerequisites(v: &Vec<(u32, u8)>) -> (r: Vec<(u32, u8)>)
    ensures
        r@ == v@,
{
    let mut r: Vec<(u32, u8)> = Vec::new();
    let mut i: usize = 0;
    while i < v.len()
        invariant
            i <= v@.len(),
            r@ == v@.take(i as int),
        decreases v.len() - i,
    {
        r.push(v[i]);
        proof {
            assert(v@.take(i + 1) =~= v@.take(i as int).push(v@[i as int]));
        }
        i = i + 1;
    }
    proof {
        assert(v@.take(v@.len() as int) =~= v@);
    }
    r
}

/// The plan's level transitions, in queue order (each queued skill below
/// level 5 with a record, trained to the next level).
pub fn plan_slots(queued: &[QueuedSkill], skills_db: &[SkillInfo]) -> (r: Vec<PlanSlot>)
    ensures
        r@.len() == planned(queued@, skills_db@).len(),
        forall|i: int|
            0 <= i < r@.len() ==> slot_matches(
                #[trigger] r@[i],
                queued@,
                skills_db@,
                planned(queued@, skills_db@)[i].0,
                planned(queued@, skills_db@)[i].1,
            ),
{
    let n = queued.len();
    let mut out: Vec<PlanSlot> = Vec::new();
    let mut k: usize = 0;
    while k < n
        invariant
            k <= n == queued@.len(),
            out@.len() == planned(queued@.take(k as int), skills_db@).len(),
            forall|i: int|
                0 <= i < out@.len() ==> slot_matches(
                    #[trigger] out@[i],
                    queued@,
                    skills_db@,
                    planned(queued@.take(k as int), skills_db@)[i].0,
                    planned(queued@.take(k as int), skills_db@)[i].1,
                ),
        decreases n - k,
    {
        let ghost t = queued@.take(k + 1);
        proof {
            assert(t.drop_last() =~= queued@.take(k as int));
            assert(t.last() == queued@[k as int]);
        }
        let q = queued[k];
        if q.level < 5 {
            match find_record(skills_db, q.id) {
                Some(r) => {
                    let prereqs = copy_prerequisites(&skills_db[r].prerequisites);
                    out.push(
                        PlanSlot {
                            queued_index: k,
                            record_index: r,
                            entry: PlanEntry {
                                skill_id: q.id,
                                target_level: q.level + 1,
                                prerequisites: prereqs,
                            },
                        },
                    );
                },
                None => {},
            }
        }
        k = k + 1;
    }
    proof {
        assert(queued@.take(n as int) =~= queued@);
    }
    out
}

} // verus!
