//! Reordering the training queue: a topological order over prerequisite edges
//! (Kahn's algorithm) that, among the skills ready to train, schedules first the
//! one training fastest under the current attributes and sharing the most
//! attributes with the other ready skills and the one just scheduled.
use vstd::prelude::*;
use crate::attributes::{eff_get, Attribute, EffectiveAttributes};
use std::collections::HashMap;

verus! {

/// What the queue ordering reads of a skill from the static data.
#[derive(Debug, Clone)]
pub struct SkillInfo {
    pub id: u32,
    pub name: String,
    pub primary_attribute: Attribute,
    pub secondary_attribute: Attribute,
    /// Direct prerequisites: (skill id, required level).
    pub prerequisites: Vec<(u32, u8)>,
}

/// One level transition waiting in the queue.
#[derive(Debug, Clone)]
pub struct PlanEntry {
    pub skill_id: u32,
    pub target_level: u8,
    /// The prerequisites of the entry's skill record.
    pub prerequisites: Vec<(u32, u8)>,
}

// ---------------------------------------------------------------------------
// The dependency edges
// ---------------------------------------------------------------------------

/// Entry `a` trains the same skill as `b` and comes before it: lower target
/// level, or the same level and an earlier place in the queue.
pub open spec fn chain_before(es: Seq<PlanEntry>, a: int, b: int) -> bool {
    &&& es[a].skill_id == es[b].skill_id
    &&& (es[a].target_level < es[b].target_level || (es[a].target_level == es[b].target_level
        && a < b))
}

/// `j` is the entry of the same skill immediately before `x`.
pub open spec fn chain_edge(es: Seq<PlanEntry>, j: int, x: int) -> bool {
    &&& 0 <= j < es.len()
    &&& 0 <= x < es.len()
    &&& chain_before(es, j, x)
    &&& !exists|k: int| 0 <= k < es.len() && #[trigger] chain_before(es, j, k) && chain_before(es, k, x)
}

/// How well entry `k` serves a prerequisite of level `level`: fully (the
/// largest key) or by its target level.
pub open spec fn dom_key(es: Seq<PlanEntry>, k: int, level: u8) -> int {
    if es[k].target_level >= level {
        u32::MAX as int
    } else {
        es[k].target_level as int
    }
}

/// Among the entries below `k` other than `x` that train skill `req.0`, the
/// last one with the largest key.
pub open spec fn dom_scan(es: Seq<PlanEntry>, x: int, req: (u32, u8), k: int) -> Option<int>
    decreases k,
{
    if k <= 0 {
        None
    } else {
        let b = dom_scan(es, x, req, k - 1);
        if k - 1 != x && es[k - 1].skill_id == req.0 && (b is None || dom_key(es, k - 1, req.1)
            >= dom_key(es, b->0, req.1)) {
            Some(k - 1)
        } else {
            b
        }
    }
}

/// The entry that the `q`-th prerequisite of entry `x` waits for, if any.
pub open spec fn prereq_source(es: Seq<PlanEntry>, x: int, q: int) -> Option<int> {
    dom_scan(es, x, es[x].prerequisites@[q], es.len() as int)
}

/// How many of the first `m` prerequisites of `x` wait for entry `j`.
pub open spec fn explicit_count(es: Seq<PlanEntry>, j: int, x: int, m: int) -> nat
    decreases m,
{
    if m <= 0 {
        0
    } else {
        explicit_count(es, j, x, m - 1) + if prereq_source(es, x, m - 1) == Some(j) {
            1nat
        } else {
            0nat
        }
    }
}

/// The number of dependency edges from entry `j` to entry `x`: `x` must train
/// after `j` when this is positive.
pub open spec fn edge_count(es: Seq<PlanEntry>, j: int, x: int) -> nat {
    (if chain_edge(es, j, x) {
        1nat
    } else {
        0nat
    }) + explicit_count(es, j, x, es[x].prerequisites@.len() as int)
}

// ---------------------------------------------------------------------------
// The choice among ready entries
// ---------------------------------------------------------------------------

/// (primary, secondary) of a skill id: from its last record in the data, or
/// (intelligence, memory) for an unknown skill.
pub open spec fn attrs_for(db: Seq<SkillInfo>, id: u32) -> (Attribute, Attribute)
    decreases db.len(),
{
    if db.len() == 0 {
        (Attribute::Intelligence, Attribute::Memory)
    } else if db.last().id == id {
        (db.last().primary_attribute, db.last().secondary_attribute)
    } else {
        attrs_for(db.drop_last(), id)
    }
}

/// The two entries share their primary or their secondary attribute.
pub open spec fn shares(db: Seq<SkillInfo>, es: Seq<PlanEntry>, a: int, b: int) -> bool {
    let pa = attrs_for(db, es[a].skill_id);
    let pb = attrs_for(db, es[b].skill_id);
    pa.0 == pb.0 || pa.1 == pb.1
}

/// Training-speed score: primary plus half the secondary, in millionths,
/// held to `0..=u32::MAX`.
pub open spec fn rate_score(eff: EffectiveAttributes, pr: (Attribute, Attribute)) -> int {
    let v = (2 * eff_get(eff, pr.0) + eff_get(eff, pr.1)) * 500000;
    if v > u32::MAX {
        u32::MAX as int
    } else if v < 0 {
        0
    } else {
        v
    }
}

/// `rate_score` of a primary value `a` and a secondary value `b`, computed
/// without overflow for any two `i128`.
fn rate_of(a: i128, b: i128) -> (r: u128)
    ensures
        r == ({
            let v = (2 * a + b) * 500000;
            if v > u32::MAX {
                u32::MAX as int
            } else if v < 0 {
                0
            } else {
                v
            }
        }),
{
    let t: i128 = match a.checked_add(b) {
        Some(c) => match a.checked_add(c) {
            Some(t) => t,
            None => {
                return if a > 0 {
                    4294967295u128
                } else {
                    0
                };
            },
        },
        None => {
            return if b > 0 {
                4294967295u128
            } else {
                0
            };
        },
    };
    if t >= 8590 {
        4294967295u128
    } else if t < 0 {
        0
    } else {
        (t * 500000) as u128
    }
}

/// Entry `k` is ready once the entries in `pre` are scheduled: it is not
/// among them and every entry it depends on is.
pub open spec fn ready_in(es: Seq<PlanEntry>, pre: Seq<usize>, k: int) -> bool {
    &&& 0 <= k < es.len()
    &&& !pre.contains(k as usize)
    &&& forall|j: int| 0 <= j < es.len() && #[trigger] edge_count(es, j, k) > 0 ==> pre.contains(
        j as usize,
    )
}

/// Ready entries below `k`, other than `x`, that share an attribute with `x`.
pub open spec fn cluster_count(
    db: Seq<SkillInfo>,
    es: Seq<PlanEntry>,
    pre: Seq<usize>,
    x: int,
    k: int,
) -> nat
    decreases k,
{
    if k <= 0 {
        0
    } else {
        cluster_count(db, es, pre, x, k - 1) + if ready_in(es, pre, k - 1) && k - 1 != x && shares(
            db,
            es,
            k - 1,
            x,
        ) {
            1nat
        } else {
            0nat
        }
    }
}

/// The score of ready entry `x` after `pre` is scheduled: the speed score
/// dominates; the ready entries sharing an attribute, and (weighted by the
/// entries left) sharing one with the entry scheduled last, break ties.
pub open spec fn step_score(
    db: Seq<SkillInfo>,
    es: Seq<PlanEntry>,
    eff: EffectiveAttributes,
    pre: Seq<usize>,
    x: int,
) -> int {
    let n = es.len();
    rate_score(eff, attrs_for(db, es[x].skill_id)) * (n + 1) + cluster_count(db, es, pre, x, n as int)
        + if pre.len() > 0 && shares(db, es, pre.last() as int, x) {
        n - pre.len()
    } else {
        0
    }
}



/// How many prerequisites of entry `x` wait for entry `j`.
pub open spec fn explicit_total(es: Seq<PlanEntry>, j: int, x: int) -> nat {
    explicit_count(es, j, x, es[x].prerequisites@.len() as int)
}

/// After the first `s` entries of `pre` are scheduled: how many of them were
/// scheduled when entry `y` first was ready.
pub open spec fn ready_since(es: Seq<PlanEntry>, pre: Seq<usize>, s: int, y: int) -> int
    decreases s,
{
    if s <= 0 {
        0
    } else if ready_in(es, pre.take(s - 1), y) {
        ready_since(es, pre, s - 1, y)
    } else {
        s
    }
}

/// The place of a ready entry in the list of ready entries once `pre` is
/// scheduled, as a key: the entries ready sooner come first; the entries
/// ready from the start go by index; among the entries one scheduling made
/// ready, the one that waited for it only as the previous level of its skill
/// comes first, the others go by index.
pub open spec fn ready_key(es: Seq<PlanEntry>, pre: Seq<usize>, y: int) -> (int, int) {
    let s = ready_since(es, pre, pre.len() as int, y);
    (s, if s == 0 {
        y
    } else if explicit_total(es, pre[s - 1] as int, y) == 0 {
        -1
    } else {
        y
    })
}

/// Lexicographic order of two keys.
pub open spec fn key_less(a: (int, int), b: (int, int)) -> bool {
    a.0 < b.0 || (a.0 == b.0 && a.1 < b.1)
}

// ---------------------------------------------------------------------------
// The order produced
// ---------------------------------------------------------------------------

/// `r` lists each index below `n` exactly once.
pub open spec fn is_permutation(r: Seq<usize>, n: int) -> bool {
    &&& r.len() == n
    &&& r.no_duplicates()
    &&& forall|a: int| 0 <= a < r.len() ==> r[a] < n
}

/// The first `m` entries of `r` are scheduled one by one, each after every
/// entry it depends on and each scoring highest among the entries ready at
/// its turn, the last in the list of ready entries (`ready_key`) among those
/// scoring as high; the rest could not be scheduled (each depends on an entry
/// not among the first `m`) and follow in queue order.
pub open spec fn kahn_order(
    db: Seq<SkillInfo>,
    es: Seq<PlanEntry>,
    eff: EffectiveAttributes,
    r: Seq<usize>,
    m: int,
) -> bool {
    &&& 0 <= m <= r.len()
    &&& forall|p: int, j: int|
        0 <= p < m && 0 <= j < es.len() && #[trigger] edge_count(es, j, r[p] as int) > 0
            ==> r.take(p).contains(j as usize)
    &&& forall|p: int, x: int|
        0 <= p < m && #[trigger] ready_in(es, r.take(p), x) ==> step_score(db, es, eff, r.take(p), x)
            <= step_score(db, es, eff, r.take(p), r[p] as int)
    &&& forall|p: int, x: int|
        0 <= p < m && #[trigger] ready_in(es, r.take(p), x) && x != r[p] as int && step_score(
            db,
            es,
            eff,
            r.take(p),
            x,
        ) == step_score(db, es, eff, r.take(p), r[p] as int) ==> key_less(
            ready_key(es, r.take(p), x),
            ready_key(es, r.take(p), r[p] as int),
        )
    &&& forall|p: int| #![trigger r[p]] m <= p < r.len() ==> blocked(es, r.take(m), r[p] as int)
    &&& forall|a: int, b: int| m <= a < b < r.len() ==> r[a] < r[b]
}

/// Entry `x` depends on an entry not in `pre`.
pub open spec fn blocked(es: Seq<PlanEntry>, pre: Seq<usize>, x: int) -> bool {
    exists|j: int| 0 <= j < es.len() && !pre.contains(j as usize) && #[trigger] edge_count(es, j, x) > 0
}

/// What `reorder_queue` returns: a permutation of the queue's indices in
/// Kahn order.
pub open spec fn queue_order(
    db: Seq<SkillInfo>,
    es: Seq<PlanEntry>,
    eff: EffectiveAttributes,
    r: Seq<usize>,
) -> bool {
    &&& is_permutation(r, es.len() as int)
    &&& exists|m: int| kahn_order(db, es, eff, r, m)
}

// ---------------------------------------------------------------------------
// Counting edges
// ---------------------------------------------------------------------------

/// Occurrences of `x` in `s`.
spec fn occ(s: Seq<usize>, x: int) -> nat
    decreases s.len(),
{
    if s.len() == 0 {
        0
    } else {
        occ(s.drop_last(), x) + if s.last() as int == x {
            1nat
        } else {
            0nat
        }
    }
}

/// Edges into `x` from the entries below `k` that are not in `placed`, as the
/// adjacency lists record them.
spec fn pending(adj: Seq<Vec<usize>>, placed: Seq<usize>, x: int, k: int) -> nat
    decreases k,
{
    if k <= 0 {
        0
    } else {
        pending(adj, placed, x, k - 1) + if placed.contains((k - 1) as usize) {
            0nat
        } else {
            occ(adj[k - 1]@, x)
        }
    }
}

proof fn lemma_occ_push(s: Seq<usize>, v: usize, x: int)
    ensures
        occ(s.push(v), x) == occ(s, x) + if v as int == x {
            1nat
        } else {
            0nat
        },
{
    assert(s.push(v).drop_last() =~= s);
}

proof fn lemma_occ_take(s: Seq<usize>, t: int, x: int)
    requires
        0 <= t < s.len(),
    ensures
        occ(s.take(t + 1), x) == occ(s.take(t), x) + if s[t] as int == x {
            1nat
        } else {
            0nat
        },
{
    assert(s.take(t + 1) =~= s.take(t).push(s[t]));
    lemma_occ_push(s.take(t), s[t], x);
}

proof fn lemma_occ_take_le(s: Seq<usize>, t: int, x: int)
    requires
        0 <= t <= s.len(),
    ensures
        occ(s.take(t), x) <= occ(s, x),
    decreases s.len(),
{
    if t == s.len() {
        assert(s.take(t) =~= s);
    } else {
        assert(s.take(t) =~= s.drop_last().take(t));
        lemma_occ_take_le(s.drop_last(), t, x);
    }
}

/// Pushing `v` onto list `j` adds one edge into `v` when `j` counts.
proof fn lemma_pending_push(
    adj1: Seq<Vec<usize>>,
    adj2: Seq<Vec<usize>>,
    placed: Seq<usize>,
    j: int,
    v: usize,
    x: int,
    k: int,
)
    requires
        adj1.len() == adj2.len(),
        0 <= j < adj1.len(),
        k <= adj1.len(),
        adj2[j]@ == adj1[j]@.push(v),
        forall|i: int| 0 <= i < adj1.len() && i != j ==> adj2[i]@ == adj1[i]@,
    ensures
        pending(adj2, placed, x, k) == pending(adj1, placed, x, k) + if j < k && !placed.contains(
            j as usize,
        ) && v as int == x {
            1nat
        } else {
            0nat
        },
    decreases k,
{
    if k > 0 {
        lemma_pending_push(adj1, adj2, placed, j, v, x, k - 1);
        if k - 1 == j {
            lemma_occ_push(adj1[j]@, v, x);
        }
    }
}

/// Scheduling `c` removes the edges leaving it.
proof fn lemma_pending_place(adj: Seq<Vec<usize>>, placed: Seq<usize>, c: usize, x: int, k: int)
    requires
        !placed.contains(c),
        k <= usize::MAX,
    ensures
        pending(adj, placed.push(c), x, k) + (if 0 <= c < k {
            occ(adj[c as int]@, x)
        } else {
            0nat
        }) == pending(adj, placed, x, k),
    decreases k,
{
    if k > 0 {
        lemma_pending_place(adj, placed, c, x, k - 1);
        let y = (k - 1) as usize;
        if y == c {
            assert(placed.push(c)[placed.len() as int] == c);
        } else {
            if placed.push(c).contains(y) {
                let i = choose|i: int| 0 <= i < placed.push(c).len() && placed.push(c)[i] == y;
                assert(placed[i] == y);
            }
            if placed.contains(y) {
                let i = choose|i: int| 0 <= i < placed.len() && placed[i] == y;
                assert(placed.push(c)[i] == y);
            }
        }
    }
}

/// No pending edge into `x` exactly when every unplaced entry below `k` has
/// no edge into `x`.
proof fn lemma_pending_zero(adj: Seq<Vec<usize>>, placed: Seq<usize>, x: int, k: int)
    requires
        0 <= k,
    ensures
        (pending(adj, placed, x, k) == 0) == (forall|j: int|
            0 <= j < k && !placed.contains(j as usize) ==> #[trigger] occ(adj[j]@, x) == 0),
    decreases k,
{
    if k > 0 {
        lemma_pending_zero(adj, placed, x, k - 1);
    }
}


// ---------------------------------------------------------------------------
// Facts about sequences of indices
// ---------------------------------------------------------------------------

proof fn lemma_push_contains(s: Seq<usize>, v: usize, y: usize)
    ensures
        s.push(v).contains(y) == (s.contains(y) || y == v),
{
    if s.push(v).contains(y) {
        let i = choose|i: int| 0 <= i < s.push(v).len() && s.push(v)[i] == y;
        if i < s.len() {
            assert(s[i] == y);
        }
    }
    if s.contains(y) {
        let i = choose|i: int| 0 <= i < s.len() && s[i] == y;
        assert(s.push(v)[i] == y);
    }
    if y == v {
        assert(s.push(v)[s.len() as int] == y);
    }
}

/// The indices below `n` as a set.
spec fn below(n: usize) -> Set<usize> {
    <usize as vstd::set_lib::FiniteRange>::range_set(0usize, n)
}

proof fn lemma_below(n: usize)
    ensures
        below(n).finite(),
        below(n).len() == n,
        forall|v: usize| #[trigger] below(n).contains(v) <==> v < n,
{
    vstd::set_lib::range_set_properties::<usize>(0usize, n);
}

/// Distinct indices below `n` number at most `n`; exactly `n` when every
/// index below `n` occurs.
pub proof fn lemma_distinct_len(s: Seq<usize>, n: usize)
    requires
        s.no_duplicates(),
        forall|i: int| 0 <= i < s.len() ==> s[i] < n,
    ensures
        s.len() <= n,
        (forall|y: usize| y < n ==> s.contains(y)) ==> s.len() == n,
{
    lemma_below(n);
    s.unique_seq_to_set();
    assert(s.to_set().subset_of(below(n)));
    vstd::set_lib::lemma_len_subset(s.to_set(), below(n));
    if forall|y: usize| y < n ==> s.contains(y) {
        assert(below(n).subset_of(s.to_set()));
        vstd::set_lib::lemma_len_subset(below(n), s.to_set());
    }
}

/// With the adjacency lists holding the dependency edges, no pending edge into
/// an unscheduled entry means it is ready.
proof fn lemma_ready_iff(es: Seq<PlanEntry>, adj: Seq<Vec<usize>>, placed: Seq<usize>, y: int)
    requires
        adj.len() == es.len(),
        es.len() <= usize::MAX,
        0 <= y < es.len(),
        !placed.contains(y as usize),
        forall|j: int, z: int|
            0 <= j < es.len() && 0 <= z < es.len() ==> #[trigger] occ(adj[j]@, z) == edge_count(
                es,
                j,
                z,
            ),
    ensures
        (pending(adj, placed, y, es.len() as int) == 0) == ready_in(es, placed, y),
{
    lemma_pending_zero(adj, placed, y, es.len() as int);
    if pending(adj, placed, y, es.len() as int) == 0 {
        assert forall|j: int| 0 <= j < es.len() && #[trigger] edge_count(es, j, y) > 0 implies placed.contains(
            j as usize,
        ) by {
            assert(occ(adj[j]@, y) == edge_count(es, j, y));
        }
    } else {
        let j = choose|j: int|
            0 <= j < es.len() && !placed.contains(j as usize) && #[trigger] occ(adj[j]@, y) != 0;
        assert(edge_count(es, j, y) > 0);
    }
}

// ---------------------------------------------------------------------------
// Cluster counts
// ---------------------------------------------------------------------------

/// Entries of `rs`, other than `x`, sharing an attribute with `x`.
spec fn seq_cluster(db: Seq<SkillInfo>, es: Seq<PlanEntry>, rs: Seq<usize>, x: int) -> nat
    decreases rs.len(),
{
    if rs.len() == 0 {
        0
    } else {
        seq_cluster(db, es, rs.drop_last(), x) + if rs.last() as int != x && shares(
            db,
            es,
            rs.last() as int,
            x,
        ) {
            1nat
        } else {
            0nat
        }
    }
}

/// Indices below `k` in `rs`, other than `x`, sharing an attribute with `x`.
spec fn member_cluster(db: Seq<SkillInfo>, es: Seq<PlanEntry>, rs: Seq<usize>, x: int, k: int) -> nat
    decreases k,
{
    if k <= 0 {
        0
    } else {
        member_cluster(db, es, rs, x, k - 1) + if rs.contains((k - 1) as usize) && k - 1 != x
            && shares(db, es, k - 1, x) {
            1nat
        } else {
            0nat
        }
    }
}

proof fn lemma_member_cluster_push(
    db: Seq<SkillInfo>,
    es: Seq<PlanEntry>,
    rs: Seq<usize>,
    v: usize,
    x: int,
    k: int,
)
    requires
        !rs.contains(v),
        k <= usize::MAX,
    ensures
        member_cluster(db, es, rs.push(v), x, k) == member_cluster(db, es, rs, x, k) + if v < k
            && v != x && shares(db, es, v as int, x) {
            1nat
        } else {
            0nat
        },
    decreases k,
{
    if k > 0 {
        lemma_member_cluster_push(db, es, rs, v, x, k - 1);
        lemma_push_contains(rs, v, (k - 1) as usize);
    }
}

proof fn lemma_seq_cluster(db: Seq<SkillInfo>, es: Seq<PlanEntry>, rs: Seq<usize>, x: int, n: usize)
    requires
        rs.no_duplicates(),
        forall|i: int| 0 <= i < rs.len() ==> rs[i] < n,
    ensures
        seq_cluster(db, es, rs, x) == member_cluster(db, es, rs, x, n as int),
    decreases rs.len(),
{
    if rs.len() == 0 {
        assert forall|k: int| 0 <= k <= n implies member_cluster(db, es, rs, x, k) == 0 by {
            lemma_member_cluster_empty(db, es, rs, x, k);
        }
    } else {
        let t = rs.drop_last();
        let v = rs.last();
        assert(rs =~= t.push(v));
        assert(!t.contains(v)) by {
            if t.contains(v) {
                let i = choose|i: int| 0 <= i < t.len() && t[i] == v;
                assert(rs[i] == rs[rs.len() - 1]);
            }
        }
        lemma_seq_cluster(db, es, t, x, n);
        lemma_member_cluster_push(db, es, t, v, x, n as int);
    }
}

proof fn lemma_member_cluster_empty(
    db: Seq<SkillInfo>,
    es: Seq<PlanEntry>,
    rs: Seq<usize>,
    x: int,
    k: int,
)
    requires
        rs.len() == 0,
    ensures
        member_cluster(db, es, rs, x, k) == 0,
    decreases k,
{
    if k > 0 {
        lemma_member_cluster_empty(db, es, rs, x, k - 1);
    }
}

proof fn lemma_cluster_eq(
    db: Seq<SkillInfo>,
    es: Seq<PlanEntry>,
    rs: Seq<usize>,
    pre: Seq<usize>,
    x: int,
    k: int,
)
    requires
        k <= es.len() <= usize::MAX,
        forall|y: int| 0 <= y < es.len() ==> (rs.contains(y as usize) <==> ready_in(es, pre, y)),
    ensures
        member_cluster(db, es, rs, x, k) == cluster_count(db, es, pre, x, k),
    decreases k,
{
    if k > 0 {
        lemma_cluster_eq(db, es, rs, pre, x, k - 1);
        assert(rs.contains((k - 1) as usize) <==> ready_in(es, pre, k - 1));
    }
}

// ---------------------------------------------------------------------------
// Small executable pieces
// ---------------------------------------------------------------------------

/// The (primary, secondary) attributes of each skill id of the data, keyed by
/// id; a later record of an id replaces an earlier one.
fn attr_map(db: &[SkillInfo]) -> (m: HashMap<u32, (Attribute, Attribute)>)
    ensures
        forall|id: u32|
            #![trigger attrs_for(db@, id)]
            (m@.contains_key(id) ==> m@[id] == attrs_for(db@, id)) && (!m@.contains_key(id)
                ==> attrs_for(db@, id) == (Attribute::Intelligence, Attribute::Memory)),
{
    broadcast use vstd::std_specs::hash::group_hash_axioms;

    let mut m: HashMap<u32, (Attribute, Attribute)> = HashMap::new();
    let mut k: usize = 0;
    while k < db.len()
        invariant
            k <= db@.len(),
            forall|id: u32|
                #![trigger attrs_for(db@.take(k as int), id)]
                (m@.contains_key(id) ==> m@[id] == attrs_for(db@.take(k as int), id)) && (
                !m@.contains_key(id) ==> attrs_for(db@.take(k as int), id) == (
                Attribute::Intelligence,
                Attribute::Memory,
                )),
        decreases db.len() - k,
    {
        proof {
            assert(db@.take(k + 1).drop_last() =~= db@.take(k as int));
            assert(db@.take(k + 1).last() == db@[k as int]);
        }
        m.insert(db[k].id, (db[k].primary_attribute, db[k].secondary_attribute));
        proof {
            assert forall|id: u32|
                #![trigger attrs_for(db@.take(k + 1), id)]
                (m@.contains_key(id) ==> m@[id] == attrs_for(db@.take(k + 1), id)) && (
                !m@.contains_key(id) ==> attrs_for(db@.take(k + 1), id) == (
                Attribute::Intelligence,
                Attribute::Memory,
                )) by {
                assert(attrs_for(db@.take(k as int), id) == attrs_for(db@.take(k as int), id));
            }
        }
        k = k + 1;
    }
    proof {
        assert(db@.take(db@.len() as int) =~= db@);
    }
    m
}

/// The attributes of a skill id, (intelligence, memory) when it has none.
fn lookup_attrs(m: &HashMap<u32, (Attribute, Attribute)>, id: u32) -> (r: (Attribute, Attribute))
    ensures
        m@.contains_key(id) ==> r == m@[id],
        !m@.contains_key(id) ==> r == (Attribute::Intelligence, Attribute::Memory),
{
    broadcast use vstd::std_specs::hash::group_hash_axioms;

    match m.get(&id) {
        Some(v) => *v,
        None => (Attribute::Intelligence, Attribute::Memory),
    }
}

fn is_chain_before(es: &[PlanEntry], a: usize, b: usize) -> (r: bool)
    requires
        a < es@.len(),
        b < es@.len(),
    ensures
        r == chain_before(es@, a as int, b as int),
{
    es[a].skill_id == es[b].skill_id && (es[a].target_level < es[b].target_level || (
    es[a].target_level == es[b].target_level && a < b))
}

/// `l` lists, in ascending order, exactly the entries that train skill `id`.
pub open spec fn lists_skill(es: Seq<PlanEntry>, id: u32, l: Seq<usize>) -> bool {
    &&& forall|t: int| 0 <= t < l.len() ==> #[trigger] l[t] < es.len() && es[l[t] as int].skill_id == id
    &&& forall|a: int, b: int| 0 <= a < b < l.len() ==> #[trigger] l[a] < #[trigger] l[b]
    &&& forall|k: int| 0 <= k < es.len() && es[k].skill_id == id ==> #[trigger] l.contains(k as usize)
}

/// The entry lists of each queued skill id, keyed by id.
pub open spec fn skill_index_ok(es: Seq<PlanEntry>, m: Map<u32, Vec<usize>>) -> bool {
    &&& forall|id: u32| #[trigger] m.contains_key(id) ==> lists_skill(es, id, m[id]@)
    &&& forall|k: int| 0 <= k < es.len() ==> m.contains_key(#[trigger] es[k].skill_id)
}

/// Index the entries by skill id.
fn skill_index(es: &[PlanEntry]) -> (m: HashMap<u32, Vec<usize>>)
    ensures
        skill_index_ok(es@, m@),
{
    broadcast use vstd::std_specs::hash::group_hash_axioms;

    let mut m: HashMap<u32, Vec<usize>> = HashMap::new();
    let n = es.len();
    let mut i: usize = 0;
    while i < n
        invariant
            i <= n == es@.len(),
            forall|id: u32| #[trigger] m@.contains_key(id) ==> {
                let l = m@[id]@;
                &&& forall|t: int| 0 <= t < l.len() ==> #[trigger] l[t] < i && es@[l[t] as int].skill_id == id
                &&& forall|a: int, b: int| 0 <= a < b < l.len() ==> #[trigger] l[a] < #[trigger] l[b]
                &&& forall|k: int| 0 <= k < i && es@[k].skill_id == id ==> #[trigger] l.contains(k as usize)
            },
            forall|k: int| 0 <= k < i ==> m@.contains_key(#[trigger] es@[k].skill_id),
        decreases n - i,
    {
        let id = es[i].skill_id;
        let ghost old_m = m@;
        let mut l: Vec<usize> = match m.remove(&id) {
            Some(v) => v,
            None => Vec::new(),
        };
        proof {
            if old_m.contains_key(id) {
                assert(l@ == old_m[id]@);
            } else {
                assert(l@ == Seq::<usize>::empty());
            }
        }
        let ghost old_l = l@;
        l.push(i);
        proof {
            assert forall|k: int| 0 <= k < i + 1 && es@[k].skill_id == id implies #[trigger] l@.contains(k as usize) by {
                if k < i {
                    assert(old_m.contains_key(es@[k].skill_id));
                    assert(old_m.contains_key(id));
                    assert(old_m[id]@.contains(k as usize));
                    assert(old_l.contains(k as usize));
                    let w = choose|w: int| 0 <= w < old_l.len() && old_l[w] == k as usize;
                    assert(l@[w] == k as usize);
                } else {
                    assert(l@[old_l.len() as int] == k as usize);
                }
            }
        }
        m.insert(id, l);
        proof {
            assert forall|k: int| 0 <= k < i + 1 implies m@.contains_key(#[trigger] es@[k].skill_id) by {
                if k < i {
                    assert(old_m.contains_key(es@[k].skill_id));
                }
            }
            assert forall|id2: u32| #[trigger] m@.contains_key(id2) implies {
                let l2 = m@[id2]@;
                &&& forall|t: int| 0 <= t < l2.len() ==> #[trigger] l2[t] < i + 1 && es@[l2[t] as int].skill_id == id2
                &&& forall|a: int, b: int| 0 <= a < b < l2.len() ==> #[trigger] l2[a] < #[trigger] l2[b]
                &&& forall|k: int| 0 <= k < i + 1 && es@[k].skill_id == id2 ==> #[trigger] l2.contains(k as usize)
            } by {
                if id2 != id {
                    assert(old_m.contains_key(id2));
                    assert(m@[id2] == old_m[id2]);
                    let l2 = m@[id2]@;
                    assert forall|k: int| 0 <= k < i + 1 && es@[k].skill_id == id2 implies #[trigger] l2.contains(k as usize) by {
                        assert(k < i);
                    }
                } else {
                    let l2 = m@[id2]@;
                    assert(l2 == l@);
                    assert forall|a: int, b: int| 0 <= a < b < l2.len() implies #[trigger] l2[a] < #[trigger] l2[b] by {
                        if b < old_l.len() {
                            assert(l2[a] == old_l[a] && l2[b] == old_l[b]);
                        } else {
                            assert(l2[a] == old_l[a]);
                        }
                    }
                    assert forall|t: int| 0 <= t < l2.len() implies #[trigger] l2[t] < i + 1 && es@[l2[t] as int].skill_id == id2 by {
                        if t < old_l.len() {
                            assert(l2[t] == old_l[t]);
                        }
                    }
                }
            }
        }
        i = i + 1;
    }
    m
}

/// The entry list of a skill id, empty when no entry trains it.
fn entries_of(m: &HashMap<u32, Vec<usize>>, id: u32) -> (r: &Vec<usize>)
    requires
        m@.contains_key(id),
    ensures
        *r == m@[id],
{
    broadcast use vstd::std_specs::hash::group_hash_axioms;

    m.get(&id).unwrap()
}

/// The entry of the same skill immediately before `x`, if any; `l` lists the
/// entries of `x`'s skill.
fn chain_pred(es: &[PlanEntry], l: &Vec<usize>, x: usize) -> (r: Option<usize>)
    requires
        x < es@.len(),
        lists_skill(es@, es@[x as int].skill_id, l@),
    ensures
        match r {
            Some(j) => chain_edge(es@, j as int, x as int),
            None => forall|j: int| !chain_edge(es@, j, x as int),
        },
{
    let n = es.len();
    let m = l.len();
    let mut best: Option<usize> = None;
    let mut t: usize = 0;
    while t < m
        invariant
            t <= m == l@.len(),
            n == es@.len(),
            x < n,
            lists_skill(es@, es@[x as int].skill_id, l@),
            match best {
                Some(b) => b < n && chain_before(es@, b as int, x as int) && forall|w: int|
                    0 <= w < t && #[trigger] chain_before(es@, l@[w] as int, x as int) ==> l@[w] == b
                        || chain_before(es@, l@[w] as int, b as int),
                None => forall|w: int| 0 <= w < t ==> !#[trigger] chain_before(es@, l@[w] as int, x as int),
            },
        decreases m - t,
    {
        let k = l[t];
        if is_chain_before(es, k, x) {
            match best {
                None => {
                    best = Some(k);
                },
                Some(b) => {
                    if is_chain_before(es, b, k) {
                        best = Some(k);
                    }
                },
            }
        }
        t = t + 1;
    }
    proof {
        assert forall|i: int| 0 <= i < n && #[trigger] chain_before(es@, i, x as int) implies exists|w: int|
            0 <= w < m && l@[w] == i as usize by {
            assert(l@.contains(i as usize));
        }
        match best {
            Some(b) => {
                assert forall|k: int| !(0 <= k < n && #[trigger] chain_before(es@, b as int, k)
                    && chain_before(es@, k, x as int)) by {
                    if 0 <= k < n && chain_before(es@, b as int, k) && chain_before(es@, k, x as int) {
                        let w = choose|w: int| 0 <= w < m && l@[w] == k as usize;
                        assert(chain_before(es@, l@[w] as int, x as int));
                    }
                }
            },
            None => {
                assert forall|j: int| !chain_edge(es@, j, x as int) by {
                    if chain_edge(es@, j, x as int) {
                        let w = choose|w: int| 0 <= w < m && l@[w] == j as usize;
                        assert(chain_before(es@, l@[w] as int, x as int));
                    }
                }
            },
        }
    }
    best
}

/// `dom_scan` does not change across indices that do not train `req.0`.
proof fn lemma_dom_scan_skip(es: Seq<PlanEntry>, x: int, req: (u32, u8), k1: int, k2: int)
    requires
        0 <= k1 <= k2 <= es.len(),
        forall|k: int| k1 <= k < k2 ==> #[trigger] es[k].skill_id != req.0,
    ensures
        dom_scan(es, x, req, k2) == dom_scan(es, x, req, k1),
    decreases k2 - k1,
{
    if k2 > k1 {
        lemma_dom_scan_skip(es, x, req, k1, k2 - 1);
    }
}

/// The entry the prerequisite `req` of entry `x` waits for, if any; `l` lists
/// the entries of skill `req.0`.
fn prereq_source_exec(es: &[PlanEntry], l: &Vec<usize>, x: usize, req: (u32, u8)) -> (r: Option<usize>)
    requires
        x < es@.len(),
        lists_skill(es@, req.0, l@),
    ensures
        match r {
            Some(j) => j < es@.len() && dom_scan(es@, x as int, req, es@.len() as int) == Some(
                j as int,
            ),
            None => dom_scan(es@, x as int, req, es@.len() as int) is None,
        },
{
    let n = es.len();
    let m = l.len();
    let mut best: Option<usize> = None;
    let mut best_key: u32 = 0;
    let mut t: usize = 0;
    while t < m
        invariant
            t <= m == l@.len(),
            n == es@.len(),
            lists_skill(es@, req.0, l@),
            ({
                let bound = if t == 0 {
                    0
                } else {
                    l@[t - 1] + 1
                };
                match best {
                    Some(b) => b < n && dom_scan(es@, x as int, req, bound) == Some(b as int)
                        && best_key == dom_key(es@, b as int, req.1),
                    None => dom_scan(es@, x as int, req, bound) is None,
                }
            }),
        decreases m - t,
    {
        let k = l[t];
        proof {
            let bound = if t == 0 {
                0
            } else {
                l@[t - 1] + 1
            };
            assert forall|q: int| bound <= q < k implies #[trigger] es@[q].skill_id != req.0 by {
                if es@[q].skill_id == req.0 {
                    assert(l@.contains(q as usize));
                    let w = choose|w: int| 0 <= w < l@.len() && l@[w] == q as usize;
                    if w < t {
                        if w < t - 1 {
                            assert(l@[w] < l@[t - 1]);
                        }
                    } else if w > t {
                        assert(l@[t as int] < l@[w]);
                    }
                }
            }
            if t > 0 {
                assert(l@[t - 1] < l@[t as int]);
            }
            lemma_dom_scan_skip(es@, x as int, req, bound, k as int);
        }
        if k != x {
            let key: u32 = if es[k].target_level >= req.1 {
                u32::MAX
            } else {
                es[k].target_level as u32
            };
            match best {
                None => {
                    best = Some(k);
                    best_key = key;
                },
                Some(_) => {
                    if key >= best_key {
                        best = Some(k);
                        best_key = key;
                    }
                },
            }
        }
        t = t + 1;
    }
    proof {
        let bound = if m == 0 {
            0
        } else {
            l@[m - 1] + 1
        };
        assert forall|q: int| bound <= q < n implies #[trigger] es@[q].skill_id != req.0 by {
            if es@[q].skill_id == req.0 {
                assert(l@.contains(q as usize));
                let w = choose|w: int| 0 <= w < l@.len() && l@[w] == q as usize;
                if w < m - 1 {
                    assert(l@[w] < l@[m - 1]);
                }
            }
        }
        lemma_dom_scan_skip(es@, x as int, req, bound, n as int);
    }
    best
}


/// The entry the prerequisite `req` of entry `x` waits for, if any, found
/// through the skill index.
fn prereq_source_of(es: &[PlanEntry], idx: &HashMap<u32, Vec<usize>>, x: usize, req: (u32, u8)) -> (r: Option<usize>)
    requires
        x < es@.len(),
        skill_index_ok(es@, idx@),
    ensures
        match r {
            Some(j) => j < es@.len() && dom_scan(es@, x as int, req, es@.len() as int) == Some(
                j as int,
            ),
            None => dom_scan(es@, x as int, req, es@.len() as int) is None,
        },
{
    broadcast use vstd::std_specs::hash::group_hash_axioms;

    match idx.get(&req.0) {
        Some(l) => {
            proof {
                assert(idx@.contains_key(req.0));
            }
            prereq_source_exec(es, l, x, req)
        },
        None => {
            proof {
                assert forall|q: int| 0 <= q < es@.len() implies #[trigger] es@[q].skill_id != req.0 by {
                    if es@[q].skill_id == req.0 {
                        assert(idx@.contains_key(es@[q].skill_id));
                    }
                }
                lemma_dom_scan_skip(es@, x as int, req, 0, es@.len() as int);
            }
            None
        },
    }
}

/// Two entries immediately before `x` in its skill's order are the same.
proof fn lemma_chain_edge_unique(es: Seq<PlanEntry>, j1: int, j2: int, x: int)
    requires
        chain_edge(es, j1, x),
        chain_edge(es, j2, x),
    ensures
        j1 == j2,
{
    if j1 != j2 {
        if chain_before(es, j1, j2) {
            assert(chain_before(es, j1, j2) && chain_before(es, j2, x));
        } else {
            assert(chain_before(es, j2, j1));
            assert(chain_before(es, j2, j1) && chain_before(es, j1, x));
        }
    }
}

/// `s[t]` does not occur after position `t`.
pub open spec fn last_occurrence(s: Seq<usize>, t: int) -> bool {
    forall|u: int| t < u < s.len() ==> s[u] != s[t]
}

/// Where an entry that scheduling `j` makes ready goes among the others so
/// made ready: first the one that waited for `j` only as the previous level
/// of its skill, then the others by index.
pub open spec fn release_rank(es: Seq<PlanEntry>, j: int, y: int) -> int {
    if explicit_total(es, j, y) == 0 {
        -1
    } else {
        y
    }
}

/// In the list `s` of the edges leaving `j`, the last occurrences of the
/// entries come in `release_rank` order.
pub open spec fn adj_ordered(es: Seq<PlanEntry>, j: int, s: Seq<usize>) -> bool {
    forall|t1: int, t2: int|
        0 <= t1 < t2 < s.len() && last_occurrence(s, t1) && last_occurrence(s, t2) ==> release_rank(
            es,
            j,
            s[t1] as int,
        ) < release_rank(es, j, s[t2] as int)
}

/// Entry `x` has a prerequisite that waits for entry `j`.
pub open spec fn waits_for(es: Seq<PlanEntry>, x: int, j: int) -> bool {
    exists|q: int| 0 <= q < es[x].prerequisites@.len() && #[trigger] prereq_source(es, x, q) == Some(j)
}

/// The edge list of `j`: its next level first, if it has one in the queue
/// (`c` is 1 then), then the entries waiting for it, by index.
spec fn adj_shape(es: Seq<PlanEntry>, j: int, s: Seq<usize>, c: int, bound: int) -> bool {
    &&& 0 <= c <= 1
    &&& c <= s.len()
    &&& c == 1 ==> chain_edge(es, j, s[0] as int)
    &&& forall|t: int| c <= t < s.len() ==> waits_for(es, #[trigger] s[t] as int, j) && s[t] <= bound
    &&& forall|t1: int, t2: int| c <= t1 < t2 < s.len() ==> #[trigger] s[t1] <= #[trigger] s[t2]
}

proof fn lemma_chain_succ_unique(es: Seq<PlanEntry>, j: int, x1: int, x2: int)
    requires
        chain_edge(es, j, x1),
        chain_edge(es, j, x2),
    ensures
        x1 == x2,
{
    if x1 != x2 {
        if chain_before(es, x1, x2) {
            assert(chain_before(es, j, x1) && chain_before(es, x1, x2));
        } else {
            assert(chain_before(es, x2, x1));
            assert(chain_before(es, j, x2) && chain_before(es, x2, x1));
        }
    }
}

proof fn lemma_occ_pos(s: Seq<usize>, t: int)
    requires
        0 <= t < s.len(),
    ensures
        occ(s, s[t] as int) >= 1,
    decreases s.len(),
{
    if t < s.len() - 1 {
        lemma_occ_pos(s.drop_last(), t);
        assert(s.drop_last()[t] == s[t]);
    }
}

proof fn lemma_occ_only_first(s: Seq<usize>, v: int)
    requires
        s.len() >= 1,
        s[0] as int == v,
        forall|u: int| 0 < u < s.len() ==> s[u] as int != v,
    ensures
        occ(s, v) == 1,
    decreases s.len(),
{
    if s.len() > 1 {
        let t = s.drop_last();
        assert forall|u: int| 0 < u < t.len() implies t[u] as int != v by {
            assert(t[u] == s[u]);
        }
        lemma_occ_only_first(t, v);
        assert(s.last() == s[s.len() - 1]);
        assert(s.last() as int != v);
    } else {
        assert(s.drop_last() =~= Seq::<usize>::empty());
        assert(occ(Seq::<usize>::empty(), v) == 0);
        assert(s.last() == s[0]);
    }
}

proof fn lemma_shape_ordered(es: Seq<PlanEntry>, j: int, s: Seq<usize>, c: int)
    requires
        0 <= j < es.len(),
        adj_shape(es, j, s, c, es.len() as int),
        forall|y: int| 0 <= y < es.len() ==> occ(s, y) == edge_count(es, j, y),
        forall|t: int| 0 <= t < s.len() ==> s[t] < es.len(),
    ensures
        adj_ordered(es, j, s),
{
    assert forall|t1: int, t2: int|
        0 <= t1 < t2 < s.len() && last_occurrence(s, t1) && last_occurrence(s, t2) implies release_rank(
        es,
        j,
        s[t1] as int,
    ) < release_rank(es, j, s[t2] as int) by {
        let y1 = s[t1] as int;
        let y2 = s[t2] as int;
        assert(s[t2] != s[t1]);
        assert(waits_for(es, y2, j));
        let q2 = choose|q: int| 0 <= q < es[y2].prerequisites@.len() && #[trigger] prereq_source(es, y2, q) == Some(j);
        lemma_explicit_count_pos(es, j, y2, es[y2].prerequisites@.len() as int, q2);
        if t1 >= c {
            assert(s[t1] <= s[t2]);
            assert(waits_for(es, y1, j));
            let q1 = choose|q: int| 0 <= q < es[y1].prerequisites@.len() && #[trigger] prereq_source(es, y1, q) == Some(j);
            lemma_explicit_count_pos(es, j, y1, es[y1].prerequisites@.len() as int, q1);
        } else {
            assert(t1 == 0 && c == 1);
            lemma_occ_only_first(s, y1);
            assert(chain_edge(es, j, y1));
            assert(edge_count(es, j, y1) == 1 + explicit_total(es, j, y1));
        }
    }
}

/// The adjacency lists and in-degrees of the dependency edges.
fn build_edges(es: &[PlanEntry]) -> (res: (Vec<Vec<usize>>, Vec<usize>))
    requires
        forall|i: int| 0 <= i < es@.len() ==> es@[i].prerequisites@.len() < usize::MAX,
    ensures
        res.0@.len() == es@.len(),
        res.1@.len() == es@.len(),
        forall|j: int, y: int|
            0 <= j < es@.len() && 0 <= y < es@.len() ==> occ(res.0@[j]@, y) == edge_count(es@, j, y),
        forall|j: int, t: int|
            0 <= j < es@.len() && 0 <= t < res.0@[j]@.len() ==> res.0@[j]@[t] < es@.len(),
        forall|y: int|
            0 <= y < es@.len() ==> res.1@[y] == pending(res.0@, Seq::empty(), y, es@.len() as int),
        forall|j: int| 0 <= j < es@.len() ==> adj_ordered(es@, j, res.0@[j]@),
{
    let n = es.len();
    let idx = skill_index(es);
    let mut adj: Vec<Vec<usize>> = Vec::new();
    let mut indeg: Vec<usize> = Vec::new();
    let mut i: usize = 0;
    while i < n
        invariant
            i <= n == es@.len(),
            adj@.len() == i,
            indeg@.len() == i,
            forall|j: int| 0 <= j < i ==> adj@[j]@ == Seq::<usize>::empty(),
            forall|j: int| 0 <= j < i ==> indeg@[j] == 0,
        decreases n - i,
    {
        adj.push(Vec::new());
        indeg.push(0);
        i = i + 1;
    }
    proof {
        assert forall|y: int| 0 <= y < n implies indeg@[y] == pending(
            adj@,
            Seq::empty(),
            y,
            n as int,
        ) by {
            lemma_pending_zero(adj@, Seq::empty(), y, n as int);
            assert forall|j: int| 0 <= j < n && !Seq::<usize>::empty().contains(
                j as usize,
            ) implies #[trigger] occ(adj@[j]@, y) == 0 by {
                assert(adj@[j]@ == Seq::<usize>::empty());
            }
        }
    }
    // Each entry after the entry of the same skill just before it.
    let mut x: usize = 0;
    while x < n
        invariant
            x <= n == es@.len(),
            skill_index_ok(es@, idx@),
            adj@.len() == n,
            indeg@.len() == n,
            forall|j: int, y: int|
                0 <= j < n && 0 <= y < n ==> #[trigger] occ(adj@[j]@, y) == if y < x && chain_edge(
                    es@,
                    j,
                    y,
                ) {
                    1nat
                } else {
                    0nat
                },
            forall|j: int, t: int| 0 <= j < n && 0 <= t < adj@[j]@.len() ==> adj@[j]@[t] < n,
            forall|y: int| 0 <= y < n ==> indeg@[y] == pending(adj@, Seq::empty(), y, n as int),
            forall|y: int| 0 <= y < n ==> indeg@[y] <= 1,
            forall|y: int| x <= y < n ==> indeg@[y] == 0,
            forall|j: int| 0 <= j < n ==> #[trigger] adj@[j]@.len() <= 1 && (adj@[j]@.len() == 1
                ==> chain_edge(es@, j, adj@[j]@[0] as int)),
        decreases n - x,
    {
        let l = entries_of(&idx, es[x].skill_id);
        match chain_pred(es, l, x) {
            Some(j) => {
                let ghost old_adj = adj@;
                proof {
                    if old_adj[j as int]@.len() == 1 {
                        let y0 = old_adj[j as int]@[0] as int;
                        lemma_occ_pos(old_adj[j as int]@, 0);
                        assert(occ(old_adj[j as int]@, y0) == if y0 < x && chain_edge(es@, j as int, y0) {
                            1nat
                        } else {
                            0nat
                        });
                        lemma_chain_succ_unique(es@, j as int, y0, x as int);
                    }
                }
                adj[j].push(x);
                proof {
                    assert forall|j2: int| 0 <= j2 < n implies #[trigger] adj@[j2]@.len() <= 1 && (adj@[j2]@.len() == 1
                        ==> chain_edge(es@, j2, adj@[j2]@[0] as int)) by {
                        if j2 != j {
                            assert(adj@[j2] == old_adj[j2]);
                        }
                    }
                    assert forall|y: int| 0 <= y < n implies pending(
                        adj@,
                        Seq::empty(),
                        y,
                        n as int,
                    ) == pending(old_adj, Seq::empty(), y, n as int) + if y == x {
                        1nat
                    } else {
                        0nat
                    } by {
                        lemma_pending_push(old_adj, adj@, Seq::empty(), j as int, x, y, n as int);
                    }
                    assert forall|j2: int, y: int| 0 <= j2 < n && 0 <= y < n implies #[trigger] occ(
                        adj@[j2]@,
                        y,
                    ) == if y < x + 1 && chain_edge(es@, j2, y) {
                        1nat
                    } else {
                        0nat
                    } by {
                        assert(occ(old_adj[j2]@, y) == if y < x && chain_edge(es@, j2, y) {
                            1nat
                        } else {
                            0nat
                        });
                        if j2 == j {
                            lemma_occ_push(old_adj[j2]@, x, y);
                        } else {
                            assert(adj@[j2] == old_adj[j2]);
                            if y == x && chain_edge(es@, j2, y) {
                                lemma_chain_edge_unique(es@, j as int, j2, x as int);
                            }
                        }
                    }
                }
                indeg.set(x, indeg[x] + 1);
            },
            None => {
                proof {
                    assert forall|j2: int, y: int| 0 <= j2 < n && 0 <= y < n implies #[trigger] occ(
                        adj@[j2]@,
                        y,
                    ) == if y < x + 1 && chain_edge(es@, j2, y) {
                        1nat
                    } else {
                        0nat
                    } by {
                        assert(occ(adj@[j2]@, y) == if y < x && chain_edge(es@, j2, y) {
                            1nat
                        } else {
                            0nat
                        });
                        if y == x {
                            assert(!chain_edge(es@, j2, y));
                        }
                    }
                }
            },
        }
        x = x + 1;
    }
    // Each entry after the entries its prerequisites wait for.
    let ghost cl: Seq<int> = Seq::new(n as nat, |j: int| adj@[j]@.len() as int);
    proof {
        assert forall|j: int| 0 <= j < n implies #[trigger] adj_shape(es@, j, adj@[j]@, cl[j], 0) by {
            assert(adj@[j]@.len() <= 1);
        }
    }
    let mut i: usize = 0;
    while i < n
        invariant
            i <= n == es@.len(),
            skill_index_ok(es@, idx@),
            adj@.len() == n,
            indeg@.len() == n,
            forall|k: int| 0 <= k < n ==> es@[k].prerequisites@.len() < usize::MAX,
            forall|j: int, y: int|
                0 <= j < n && 0 <= y < n ==> #[trigger] occ(adj@[j]@, y) == (if chain_edge(es@, j, y) {
                    1nat
                } else {
                    0nat
                }) + if y < i {
                    explicit_count(es@, j, y, es@[y].prerequisites@.len() as int)
                } else {
                    0nat
                },
            forall|j: int, t: int| 0 <= j < n && 0 <= t < adj@[j]@.len() ==> adj@[j]@[t] < n,
            forall|y: int| 0 <= y < n ==> indeg@[y] == pending(adj@, Seq::empty(), y, n as int),
            forall|y: int| i <= y < n ==> indeg@[y] <= 1,
            cl.len() == n,
            forall|j: int| 0 <= j < n ==> #[trigger] adj_shape(es@, j, adj@[j]@, cl[j], i as int),
        decreases n - i,
    {
        let m = es[i].prerequisites.len();
        let mut q: usize = 0;
        while q < m
            invariant
                i < n == es@.len(),
                skill_index_ok(es@, idx@),
                q <= m == es@[i as int].prerequisites@.len(),
                m < usize::MAX,
                adj@.len() == n,
                indeg@.len() == n,
                forall|j: int, y: int|
                    0 <= j < n && 0 <= y < n ==> #[trigger] occ(adj@[j]@, y) == (if chain_edge(es@, j, y) {
                        1nat
                    } else {
                        0nat
                    }) + if y < i {
                        explicit_count(es@, j, y, es@[y].prerequisites@.len() as int)
                    } else if y == i {
                        explicit_count(es@, j, y, q as int)
                    } else {
                        0nat
                    },
                forall|j: int, t: int| 0 <= j < n && 0 <= t < adj@[j]@.len() ==> adj@[j]@[t] < n,
                forall|y: int| 0 <= y < n ==> indeg@[y] == pending(adj@, Seq::empty(), y, n as int),
                indeg@[i as int] <= 1 + q,
                forall|y: int| i < y < n ==> indeg@[y] <= 1,
                cl.len() == n,
                forall|j: int| 0 <= j < n ==> #[trigger] adj_shape(es@, j, adj@[j]@, cl[j], i as int),
            decreases m - q,
        {
            let req = es[i].prerequisites[q];
            match prereq_source_of(es, &idx, i, req) {
                Some(j) => {
                    let ghost old_adj = adj@;
                    adj[j].push(i);
                    proof {
                        assert(prereq_source(es@, i as int, q as int) == Some(j as int));
                        assert forall|j2: int| 0 <= j2 < n implies #[trigger] adj_shape(es@, j2, adj@[j2]@, cl[j2], i as int) by {
                            if j2 != j {
                                assert(adj@[j2] == old_adj[j2]);
                            } else {
                                let s2 = adj@[j2]@;
                                let s1 = old_adj[j2]@;
                                assert(adj_shape(es@, j2, s1, cl[j2], i as int));
                                assert(s2 == s1.push(i));
                                assert forall|t: int| cl[j2] <= t < s2.len() implies waits_for(es@, #[trigger] s2[t] as int, j2) && s2[t] <= i by {
                                    if t < s1.len() {
                                        assert(s2[t] == s1[t]);
                                    } else {
                                        assert(s2[t] == i);
                                    }
                                }
                                assert forall|t1: int, t2: int| cl[j2] <= t1 < t2 < s2.len() implies #[trigger] s2[t1] <= #[trigger] s2[t2] by {
                                    assert(s2[t1] == s1[t1]);
                                    if t2 < s1.len() {
                                        assert(s2[t2] == s1[t2]);
                                    }
                                }
                                if cl[j2] == 1 {
                                    assert(s2[0] == s1[0]);
                                }
                            }
                        }
                        assert forall|y: int| 0 <= y < n implies pending(
                            adj@,
                            Seq::empty(),
                            y,
                            n as int,
                        ) == pending(old_adj, Seq::empty(), y, n as int) + if y == i {
                            1nat
                        } else {
                            0nat
                        } by {
                            lemma_pending_push(
                                old_adj,
                                adj@,
                                Seq::empty(),
                                j as int,
                                i,
                                y,
                                n as int,
                            );
                        }
                        assert forall|j2: int, y: int| 0 <= j2 < n && 0 <= y < n implies occ(
                            adj@[j2]@,
                            y,
                        ) == (if chain_edge(es@, j2, y) {
                            1nat
                        } else {
                            0nat
                        }) + if y < i {
                            explicit_count(es@, j2, y, es@[y].prerequisites@.len() as int)
                        } else if y == i {
                            explicit_count(es@, j2, y, q + 1)
                        } else {
                            0nat
                        } by {
                            if j2 == j {
                                lemma_occ_push(old_adj[j2]@, i, y);
                            }
                        }
                    }
                    indeg.set(i, indeg[i] + 1);
                },
                None => {},
            }
            q = q + 1;
        }
        proof {
            assert forall|j: int| 0 <= j < n implies #[trigger] adj_shape(es@, j, adj@[j]@, cl[j], i + 1) by {
                assert(adj_shape(es@, j, adj@[j]@, cl[j], i as int));
            }
        }
        i = i + 1;
    }
    proof {
        assert forall|j: int| 0 <= j < n implies adj_ordered(es@, j, adj@[j]@) by {
            assert(adj_shape(es@, j, adj@[j]@, cl[j], n as int));
            lemma_shape_ordered(es@, j, adj@[j]@, cl[j]);
        }
    }
    (adj, indeg)
}


/// The score of ready entry `idx`, as `step_score` defines it.
fn score_of(
    es: &[PlanEntry],
    db: &[SkillInfo],
    eff: &EffectiveAttributes,
    pa: &Vec<(Attribute, Attribute)>,
    ready: &Vec<usize>,
    ordered: &Vec<usize>,
    idx: usize,
) -> (s: u128)
    requires
        pa@.len() == es@.len(),
        forall|i: int| 0 <= i < es@.len() ==> pa@[i] == attrs_for(db@, es@[i].skill_id),
        ready@.no_duplicates(),
        forall|i: int| 0 <= i < ready@.len() ==> ready@[i] < es@.len(),
        forall|y: int|
            0 <= y < es@.len() ==> (ready@.contains(y as usize) <==> ready_in(es@, ordered@, y)),
        forall|i: int| 0 <= i < ordered@.len() ==> ordered@[i] < es@.len(),
        ordered@.len() <= es@.len(),
        idx < es@.len(),
    ensures
        s == step_score(db@, es@, *eff, ordered@, idx as int),
{
    let n = es.len();
    let (p, sc) = pa[idx];
    let rate = rate_of(eff.get(p), eff.get(sc));
    let mut cluster: u128 = 0;
    let mut k: usize = 0;
    while k < ready.len()
        invariant
            k <= ready@.len(),
            idx < n == es@.len(),
            pa@.len() == n,
            forall|i: int| 0 <= i < n ==> pa@[i] == attrs_for(db@, es@[i].skill_id),
            forall|i: int| 0 <= i < ready@.len() ==> ready@[i] < n,
            (p, sc) == attrs_for(db@, es@[idx as int].skill_id),
            cluster == seq_cluster(db@, es@, ready@.take(k as int), idx as int),
            cluster <= k,
        decreases ready.len() - k,
    {
        proof {
            assert(ready@.take(k + 1).drop_last() =~= ready@.take(k as int));
        }
        let kk = ready[k];
        if kk != idx {
            let (jp, js) = pa[kk];
            if jp == p || js == sc {
                cluster = cluster + 1;
            }
        }
        k = k + 1;
    }
    proof {
        assert(ready@.take(ready@.len() as int) =~= ready@);
        lemma_seq_cluster(db@, es@, ready@, idx as int, n);
        lemma_cluster_eq(db@, es@, ready@, ordered@, idx as int, n as int);
    }
    if ordered.len() > 0 {
        let last = ordered[ordered.len() - 1];
        let (lp, ls) = pa[last];
        if lp == p || ls == sc {
            cluster = cluster + (n - ordered.len()) as u128;
        }
    }
    proof {
        assert(rate * (n as u128 + 1) <= 4294967295 * (usize::MAX as int + 1)) by (nonlinear_arith)
            requires
                rate <= 4294967295,
                n <= usize::MAX,
        ;
    }
    rate * (n as u128 + 1) + cluster
}

/// The position in `ready` of the entry to schedule next: the last one with
/// the highest score.
fn choose_ready(
    es: &[PlanEntry],
    db: &[SkillInfo],
    eff: &EffectiveAttributes,
    pa: &Vec<(Attribute, Attribute)>,
    ready: &Vec<usize>,
    ordered: &Vec<usize>,
) -> (pos: usize)
    requires
        ready@.len() > 0,
        pa@.len() == es@.len(),
        forall|i: int| 0 <= i < es@.len() ==> pa@[i] == attrs_for(db@, es@[i].skill_id),
        ready@.no_duplicates(),
        forall|i: int| 0 <= i < ready@.len() ==> ready@[i] < es@.len(),
        forall|y: int|
            0 <= y < es@.len() ==> (ready@.contains(y as usize) <==> ready_in(es@, ordered@, y)),
        forall|i: int| 0 <= i < ordered@.len() ==> ordered@[i] < es@.len(),
        ordered@.len() <= es@.len(),
    ensures
        pos < ready@.len(),
        forall|t: int|
            0 <= t < ready@.len() ==> step_score(db@, es@, *eff, ordered@, ready@[t] as int)
                <= step_score(db@, es@, *eff, ordered@, ready@[pos as int] as int),
        forall|t: int|
            pos < t < ready@.len() ==> step_score(db@, es@, *eff, ordered@, ready@[t] as int)
                < step_score(db@, es@, *eff, ordered@, ready@[pos as int] as int),
{
    let mut best_pos: usize = 0;
    let mut best: u128 = 0;
    let mut pos: usize = 0;
    while pos < ready.len()
        invariant
            ready@.len() > 0,
            pos <= ready@.len(),
            pa@.len() == es@.len(),
            forall|i: int| 0 <= i < es@.len() ==> pa@[i] == attrs_for(db@, es@[i].skill_id),
            ready@.no_duplicates(),
            forall|i: int| 0 <= i < ready@.len() ==> ready@[i] < es@.len(),
            forall|y: int|
                0 <= y < es@.len() ==> (ready@.contains(y as usize) <==> ready_in(
                    es@,
                    ordered@,
                    y,
                )),
            forall|i: int| 0 <= i < ordered@.len() ==> ordered@[i] < es@.len(),
            ordered@.len() <= es@.len(),
            pos > 0 ==> best_pos < pos && best == step_score(
                db@,
                es@,
                *eff,
                ordered@,
                ready@[best_pos as int] as int,
            ),
            forall|t: int|
                0 <= t < pos ==> step_score(db@, es@, *eff, ordered@, ready@[t] as int) <= best,
            forall|t: int|
                best_pos < t < pos ==> step_score(db@, es@, *eff, ordered@, ready@[t] as int) < best,
        decreases ready.len() - pos,
    {
        let s = score_of(es, db, eff, pa, ready, ordered, ready[pos]);
        if pos == 0 || s >= best {
            best_pos = pos;
            best = s;
        }
        pos = pos + 1;
    }
    best_pos
}

proof fn lemma_ready_since_range(es: Seq<PlanEntry>, pre: Seq<usize>, s: int, y: int)
    ensures
        0 <= ready_since(es, pre, s, y) <= if s < 0 { 0 } else { s },
    decreases s,
{
    if s > 0 {
        lemma_ready_since_range(es, pre, s - 1, y);
    }
}

proof fn lemma_ready_since_prefix(es: Seq<PlanEntry>, p1: Seq<usize>, p2: Seq<usize>, k: int, s: int, y: int)
    requires
        0 <= s <= k <= p1.len(),
        k <= p2.len(),
        p1.take(k) == p2.take(k),
    ensures
        ready_since(es, p1, s, y) == ready_since(es, p2, s, y),
    decreases s,
{
    if s > 0 {
        assert(p1.take(s - 1) =~= p1.take(k).take(s - 1));
        assert(p2.take(s - 1) =~= p2.take(k).take(s - 1));
        lemma_ready_since_prefix(es, p1, p2, k, s - 1, y);
    }
}

/// When the first `t + 1` elements hold every occurrence of `v`, none follows.
proof fn lemma_occ_take_full(s: Seq<usize>, t: int, v: int)
    requires
        0 <= t < s.len(),
        occ(s.take(t + 1), v) == occ(s, v),
    ensures
        forall|u: int| t < u < s.len() ==> s[u] as int != v,
    decreases s.len(),
{
    if s.len() > t + 1 {
        let d = s.drop_last();
        assert(s.take(t + 1) =~= d.take(t + 1));
        lemma_occ_take_le(d, t + 1, v);
        assert(occ(s, v) == occ(d, v) + if s.last() as int == v {
            1nat
        } else {
            0nat
        });
        lemma_occ_take_full(d, t, v);
        assert forall|u: int| t < u < s.len() implies s[u] as int != v by {
            if u < s.len() - 1 {
                assert(s[u] == d[u]);
            }
        }
    }
}

/// Schedule `c` after `done`: drop the edges leaving it, and make ready the
/// entries that no longer wait for anything.
fn release(
    adj: &Vec<Vec<usize>>,
    c: usize,
    indeg: &mut Vec<usize>,
    ready: &mut Vec<usize>,
    Ghost(es): Ghost<Seq<PlanEntry>>,
    Ghost(done): Ghost<Seq<usize>>,
)
    requires
        es.len() <= usize::MAX,
        adj@.len() == es.len(),
        old(indeg)@.len() == es.len(),
        c < es.len(),
        forall|j: int, y: int|
            0 <= j < es.len() && 0 <= y < es.len() ==> #[trigger] occ(adj@[j]@, y) == edge_count(
                es,
                j,
                y,
            ),
        forall|j: int, t: int|
            0 <= j < es.len() && 0 <= t < adj@[j]@.len() ==> adj@[j]@[t] < es.len(),
        !done.contains(c),
        forall|y: int|
            0 <= y < es.len() ==> old(indeg)@[y] == pending(adj@, done, y, es.len() as int),
        forall|y: int|
            0 <= y < es.len() && done.contains(y as usize) ==> old(indeg)@[y] == 0,
        old(indeg)@[c as int] == 0,
        old(ready)@.no_duplicates(),
        forall|i: int| 0 <= i < old(ready)@.len() ==> old(ready)@[i] < es.len(),
        !old(ready)@.contains(c),
        forall|i: int| 0 <= i < old(ready)@.len() ==> !done.contains(old(ready)@[i]),
        forall|y: int|
            0 <= y < es.len() && !done.contains(y as usize) && y != c ==> (old(ready)@.contains(
                y as usize,
            ) <==> old(indeg)@[y] == 0),
        adj_ordered(es, c as int, adj@[c as int]@),
    ensures
        final(ready)@.len() >= old(ready)@.len(),
        final(ready)@.take(old(ready)@.len() as int) == old(ready)@,
        forall|a: int|
            old(ready)@.len() <= a < final(ready)@.len() ==> occ(adj@[c as int]@, #[trigger] final(ready)@[a] as int) > 0,
        forall|a: int, b: int|
            old(ready)@.len() <= a < b < final(ready)@.len() ==> release_rank(
                es,
                c as int,
                #[trigger] final(ready)@[a] as int,
            ) < release_rank(es, c as int, #[trigger] final(ready)@[b] as int),
        final(indeg)@.len() == es.len(),
        forall|y: int|
            0 <= y < es.len() ==> final(indeg)@[y] == pending(
                adj@,
                done.push(c),
                y,
                es.len() as int,
            ),
        forall|y: int|
            0 <= y < es.len() && done.push(c).contains(y as usize) ==> final(indeg)@[y] == 0,
        final(ready)@.no_duplicates(),
        forall|i: int| 0 <= i < final(ready)@.len() ==> final(ready)@[i] < es.len(),
        forall|i: int| 0 <= i < final(ready)@.len() ==> !done.push(c).contains(final(ready)@[i]),
        forall|y: int|
            0 <= y < es.len() && !done.push(c).contains(y as usize) ==> (final(ready)@.contains(
                y as usize,
            ) <==> final(indeg)@[y] == 0),
{
    let ghost n = es.len() as int;
    let ghost now = done.push(c);
    let deps = &adj[c];
    proof {
        assert forall|y: int| 0 <= y < n implies pending(adj@, done, y, n) == pending(
            adj@,
            now,
            y,
            n,
        ) + occ(deps@, y) by {
            lemma_pending_place(adj@, done, c, y, n);
        }
        assert forall|v: usize| #[trigger] now.contains(v) == (done.contains(v) || v == c) by {
            lemma_push_contains(done, c, v);
        }
        assert forall|y: int| 0 <= y < n && #[trigger] now.contains(y as usize) implies pending(
            adj@,
            now,
            y,
            n,
        ) == 0 && occ(deps@, y) == 0 by {
            assert(old(indeg)@[y] == pending(adj@, done, y, n));
            if y != c {
                assert(done.contains(y as usize));
            }
            assert(pending(adj@, done, y, n) == 0);
        }
        assert(deps@.take(0) =~= Seq::<usize>::empty());
    }
    let ghost start = ready@;
    let ghost mut ps: Seq<int> = Seq::empty();
    let mut t: usize = 0;
    while t < deps.len()
        invariant
            n == es.len() <= usize::MAX,
            c < n,
            deps@ == adj@[c as int]@,
            t <= deps@.len(),
            forall|j: int, u: int| 0 <= j < n && 0 <= u < adj@[j]@.len() ==> adj@[j]@[u] < n,
            indeg@.len() == n,
            forall|v: usize| #[trigger] now.contains(v) == (done.contains(v) || v == c),
            forall|y: int|
                0 <= y < n ==> indeg@[y] + occ(deps@.take(t as int), y) == pending(adj@, now, y, n)
                    + occ(deps@, y),
            forall|y: int|
                0 <= y < n && #[trigger] now.contains(y as usize) ==> pending(adj@, now, y, n) == 0 && occ(
                    deps@,
                    y,
                ) == 0,
            ready@.no_duplicates(),
            forall|i: int| 0 <= i < ready@.len() ==> ready@[i] < n,
            forall|i: int| 0 <= i < ready@.len() ==> !now.contains(ready@[i]),
            forall|y: int|
                0 <= y < n && !now.contains(y as usize) ==> (ready@.contains(y as usize)
                    <==> indeg@[y] == 0),
            adj_ordered(es, c as int, deps@),
            ready@.len() == start.len() + ps.len(),
            ready@.take(start.len() as int) == start,
            forall|k: int| #![trigger ps[k]] 0 <= k < ps.len() ==> 0 <= ps[k] < t && deps@[ps[k]] == ready@[start.len() + k]
                && last_occurrence(deps@, ps[k]),
            forall|k1: int, k2: int| 0 <= k1 < k2 < ps.len() ==> #[trigger] ps[k1] < #[trigger] ps[k2],
        decreases deps.len() - t,
    {
        let d = deps[t];
        proof {
            lemma_occ_take(deps@, t as int, d as int);
            lemma_occ_take_le(deps@, t + 1, d as int);
            assert(occ(deps@.take(t as int), d as int) < occ(deps@, d as int));
            assert(!now.contains(d));
        }
        let ghost old_ready = ready@;
        indeg.set(d, indeg[d] - 1);
        if indeg[d] == 0 {
            proof {
                assert(!old_ready.contains(d));
                lemma_occ_take(deps@, t as int, d as int);
                lemma_occ_take_le(deps@, t + 1, d as int);
                lemma_occ_take_full(deps@, t as int, d as int);
            }
            ready.push(d);
            proof {
                let old_ps = ps;
                ps = ps.push(t as int);
                assert(ready@.take(start.len() as int) =~= old_ready.take(start.len() as int));
                assert forall|k: int| #![trigger ps[k]] 0 <= k < ps.len() implies 0 <= ps[k] < t + 1 && deps@[ps[k]] == ready@[start.len() + k]
                    && last_occurrence(deps@, ps[k]) by {
                    if k < old_ps.len() {
                        assert(ps[k] == old_ps[k]);
                        assert(ready@[start.len() + k] == old_ready[start.len() + k]);
                    }
                }
                assert forall|k1: int, k2: int| 0 <= k1 < k2 < ps.len() implies #[trigger] ps[k1] < #[trigger] ps[k2] by {
                    assert(ps[k1] == old_ps[k1]);
                    if k2 < old_ps.len() {
                        assert(ps[k2] == old_ps[k2]);
                    }
                }
                assert forall|y: int|
                    0 <= y < n && !now.contains(y as usize) implies (ready@.contains(y as usize)
                    <==> indeg@[y] == 0) by {
                    lemma_push_contains(old_ready, d, y as usize);
                }
                assert forall|i: int| 0 <= i < ready@.len() implies !now.contains(ready@[i]) by {
                    if i < old_ready.len() {
                        assert(ready@[i] == old_ready[i]);
                    }
                }
            }
        }
        proof {
            assert forall|y: int| 0 <= y < n implies indeg@[y] + occ(deps@.take(t + 1), y) == pending(
                adj@,
                now,
                y,
                n,
            ) + occ(deps@, y) by {
                lemma_occ_take(deps@, t as int, y);
            }
        }
        t = t + 1;
    }
    proof {
        assert(deps@.take(deps@.len() as int) =~= deps@);
        assert forall|y: int| 0 <= y < n implies indeg@[y] == pending(adj@, now, y, n) by {
            assert(indeg@[y] + occ(deps@.take(deps@.len() as int), y) == pending(adj@, now, y, n)
                + occ(deps@, y));
        }
        assert forall|a: int| start.len() <= a < ready@.len() implies occ(adj@[c as int]@, #[trigger] ready@[a] as int) > 0 by {
            let k = a - start.len();
            assert(deps@[ps[k]] == ready@[a]);
            lemma_occ_pos(deps@, ps[k]);
        }
        assert forall|a: int, b: int| start.len() <= a < b < ready@.len() implies release_rank(
            es,
            c as int,
            #[trigger] ready@[a] as int,
        ) < release_rank(es, c as int, #[trigger] ready@[b] as int) by {
            let ka = a - start.len();
            let kb = b - start.len();
            assert(ps[ka] < ps[kb]);
            assert(deps@[ps[ka]] == ready@[a]);
            assert(deps@[ps[kb]] == ready@[b]);
        }
    }
}


proof fn lemma_remove_contains(s: Seq<usize>, i: int, y: usize)
    requires
        s.no_duplicates(),
        0 <= i < s.len(),
    ensures
        s.remove(i).contains(y) == (s.contains(y) && y != s[i]),
        s.remove(i).no_duplicates(),
{
    let t = s.remove(i);
    assert forall|k: int| 0 <= k < t.len() implies #[trigger] t[k] == if k < i {
        s[k]
    } else {
        s[k + 1]
    } by {}
    if t.contains(y) {
        let k = choose|k: int| 0 <= k < t.len() && t[k] == y;
        if k < i {
            assert(s[k] == y);
        } else {
            assert(s[k + 1] == y);
        }
    }
    if s.contains(y) && y != s[i] {
        let k = choose|k: int| 0 <= k < s.len() && s[k] == y;
        if k < i {
            assert(t[k] == y);
        } else {
            assert(t[k - 1] == y);
        }
    }
    assert forall|a: int, b: int| 0 <= a < t.len() && 0 <= b < t.len() && a != b implies t[a]
        != t[b] by {
        let sa = if a < i {
            a
        } else {
            a + 1
        };
        let sb = if b < i {
            b
        } else {
            b + 1
        };
        assert(t[a] == s[sa] && t[b] == s[sb]);
    }
}

/// Reorder the queue (given as its level transitions, with the static skill
/// data and the current effective attributes): the indices of the entries in
/// training order.
pub fn reorder_queue(
    entries: &[PlanEntry],
    skills_db: &[SkillInfo],
    initial_effective: &EffectiveAttributes,
) -> (r: Vec<usize>)
    requires
        forall|i: int| 0 <= i < entries@.len() ==> entries@[i].prerequisites@.len() < usize::MAX,
    ensures
        queue_order(skills_db@, entries@, *initial_effective, r@),
{
    let n = entries.len();
    let ghost es = entries@;
    let ghost db = skills_db@;
    let ghost eff = *initial_effective;
    let (adj, mut indeg) = build_edges(entries);
    let attrs = attr_map(skills_db);
    let mut pa: Vec<(Attribute, Attribute)> = Vec::new();
    let mut i: usize = 0;
    while i < n
        invariant
            i <= n == es.len(),
            es == entries@,
            db == skills_db@,
            pa@.len() == i,
            forall|k: int| 0 <= k < i ==> pa@[k] == attrs_for(db, es[k].skill_id),
            forall|id: u32|
                #![trigger attrs_for(db, id)]
                (attrs@.contains_key(id) ==> attrs@[id] == attrs_for(db, id)) && (
                !attrs@.contains_key(id) ==> attrs_for(db, id) == (
                Attribute::Intelligence,
                Attribute::Memory,
                )),
        decreases n - i,
    {
        let a = lookup_attrs(&attrs, entries[i].skill_id);
        proof {
            assert(attrs_for(db, es[i as int].skill_id) == attrs_for(db, es[i as int].skill_id));
        }
        pa.push(a);
        i = i + 1;
    }
    let mut ready: Vec<usize> = Vec::new();
    let mut x: usize = 0;
    while x < n
        invariant
            x <= n == es.len(),
            indeg@.len() == n,
            ready@.no_duplicates(),
            forall|k: int| 0 <= k < ready@.len() ==> ready@[k] < x,
            forall|y: int| 0 <= y < x ==> (ready@.contains(y as usize) <==> indeg@[y] == 0),
            forall|a: int, b: int| 0 <= a < b < ready@.len() ==> #[trigger] ready@[a] < #[trigger] ready@[b],
        decreases n - x,
    {
        if indeg[x] == 0 {
            let ghost old_ready = ready@;
            ready.push(x);
            proof {
                assert forall|y: int| 0 <= y < x + 1 implies (ready@.contains(y as usize)
                    <==> indeg@[y] == 0) by {
                    lemma_push_contains(old_ready, x, y as usize);
                }
                assert(!old_ready.contains(x));
            }
        }
        x = x + 1;
    }
    let mut ordered: Vec<usize> = Vec::new();
    proof {
        assert forall|y: usize| !ordered@.contains(y) by {}
        assert forall|a: int, b: int| 0 <= a < b < ready@.len() implies key_less(
            ready_key(es, ordered@, #[trigger] ready@[a] as int),
            ready_key(es, ordered@, #[trigger] ready@[b] as int),
        ) by {}
    }
    while ready.len() > 0
        invariant
            n == es.len(),
            es == entries@,
            db == skills_db@,
            eff == *initial_effective,
            adj@.len() == n,
            indeg@.len() == n,
            pa@.len() == n,
            forall|k: int| 0 <= k < n ==> pa@[k] == attrs_for(db, es[k].skill_id),
            forall|j: int, y: int|
                0 <= j < n && 0 <= y < n ==> #[trigger] occ(adj@[j]@, y) == edge_count(es, j, y),
            forall|j: int, t: int| 0 <= j < n && 0 <= t < adj@[j]@.len() ==> adj@[j]@[t] < n,
            forall|y: int| 0 <= y < n ==> indeg@[y] == pending(adj@, ordered@, y, n as int),
            forall|y: int| 0 <= y < n && ordered@.contains(y as usize) ==> indeg@[y] == 0,
            ordered@.no_duplicates(),
            forall|k: int| 0 <= k < ordered@.len() ==> ordered@[k] < n,
            ordered@.len() <= n,
            ready@.no_duplicates(),
            forall|k: int| 0 <= k < ready@.len() ==> ready@[k] < n,
            forall|k: int| 0 <= k < ready@.len() ==> !ordered@.contains(ready@[k]),
            forall|y: int|
                0 <= y < n && !ordered@.contains(y as usize) ==> (ready@.contains(y as usize)
                    <==> indeg@[y] == 0),
            forall|p: int, j: int|
                0 <= p < ordered@.len() && 0 <= j < n && #[trigger] edge_count(
                    es,
                    j,
                    ordered@[p] as int,
                ) > 0 ==> ordered@.take(p).contains(j as usize),
            forall|p: int, y: int|
                0 <= p < ordered@.len() && #[trigger] ready_in(es, ordered@.take(p), y)
                    ==> step_score(db, es, eff, ordered@.take(p), y) <= step_score(
                    db,
                    es,
                    eff,
                    ordered@.take(p),
                    ordered@[p] as int,
                ),
            forall|j: int| 0 <= j < n ==> adj_ordered(es, j, #[trigger] adj@[j]@),
            forall|a: int, b: int| 0 <= a < b < ready@.len() ==> key_less(
                ready_key(es, ordered@, #[trigger] ready@[a] as int),
                ready_key(es, ordered@, #[trigger] ready@[b] as int),
            ),
            forall|p: int, y: int|
                0 <= p < ordered@.len() && #[trigger] ready_in(es, ordered@.take(p), y) && y
                    != ordered@[p] as int && step_score(db, es, eff, ordered@.take(p), y)
                    == step_score(db, es, eff, ordered@.take(p), ordered@[p] as int) ==> key_less(
                    ready_key(es, ordered@.take(p), y),
                    ready_key(es, ordered@.take(p), ordered@[p] as int),
                ),
        decreases n - ordered@.len(),
    {
        proof {
            assert forall|y: int| 0 <= y < n implies (ready@.contains(y as usize) <==> ready_in(
                es,
                ordered@,
                y,
            )) by {
                if ordered@.contains(y as usize) {
                    if ready@.contains(y as usize) {
                        let k = choose|k: int| 0 <= k < ready@.len() && ready@[k] == y as usize;
                        assert(!ordered@.contains(ready@[k]));
                    }
                } else {
                    lemma_ready_iff(es, adj@, ordered@, y);
                    assert(indeg@[y] == pending(adj@, ordered@, y, n as int));
                    assert(ready@.contains(y as usize) <==> indeg@[y] == 0);
                }
            }
        }
        let pos = choose_ready(entries, skills_db, initial_effective, &pa, &ready, &ordered);
        let ghost old_ready = ready@;
        let ghost done = ordered@;
        let c = ready.remove(pos);
        proof {
            assert(old_ready.contains(c));
            assert(ready_in(es, done, c as int));
            assert(!done.contains(c));
            assert forall|v: usize| #[trigger] ready@.contains(v) == (old_ready.contains(v) && v
                != c) by {
                lemma_remove_contains(old_ready, pos as int, v);
            }
            lemma_remove_contains(old_ready, pos as int, c);
            assert forall|k: int| 0 <= k < ready@.len() implies ready@[k] < n && !done.contains(
                ready@[k],
            ) by {
                assert(ready@.contains(ready@[k]));
                let t = choose|t: int| 0 <= t < old_ready.len() && old_ready[t] == ready@[k];
            }
        }
        let ghost mid = ready@;
        proof {
            assert(adj_ordered(es, c as int, adj@[c as int]@));
            assert forall|a: int, b: int| 0 <= a < b < mid.len() implies key_less(
                ready_key(es, done, #[trigger] mid[a] as int),
                ready_key(es, done, #[trigger] mid[b] as int),
            ) by {
                let oa = if a < pos { a } else { a + 1 };
                let ob = if b < pos { b } else { b + 1 };
                assert(mid[a] == old_ready[oa] && mid[b] == old_ready[ob]);
            }
        }
        ordered.push(c);
        release(&adj, c, &mut indeg, &mut ready, Ghost(es), Ghost(done));
        proof {
            let k = done.len() as int;
            assert(ordered@.take(k) =~= done);
            assert(done.take(k) =~= done);
            assert forall|y: int| 0 <= y < n && #[trigger] ready_in(es, done, y) implies ready_key(es, ordered@, y)
                == ready_key(es, done, y) by {
                lemma_ready_since_prefix(es, ordered@, done, k, k, y);
                lemma_ready_since_range(es, done, k, y);
                let s0 = ready_since(es, done, k, y);
                if s0 > 0 {
                    assert(ordered@[s0 - 1] == done[s0 - 1]);
                }
            }
            assert forall|a: int| mid.len() <= a < ready@.len() implies #[trigger] ready_key(es, ordered@, ready@[a] as int)
                == (k + 1, release_rank(es, c as int, ready@[a] as int)) by {
                let y = ready@[a] as int;
                assert(occ(adj@[c as int]@, y) > 0);
                assert(edge_count(es, c as int, y) > 0);
                assert(!ready_in(es, done, y));
                assert(ordered@[k] == c);
            }
            assert forall|a: int| 0 <= a < mid.len() implies #[trigger] ready@[a] == mid[a] && ready_in(es, done, mid[a] as int) by {
                assert(ready@.take(mid.len() as int)[a] == mid[a]);
                assert(old_ready.contains(mid[a]));
            }
            assert forall|a: int, b: int| 0 <= a < b < ready@.len() implies key_less(
                ready_key(es, ordered@, #[trigger] ready@[a] as int),
                ready_key(es, ordered@, #[trigger] ready@[b] as int),
            ) by {
                if b < mid.len() {
                    assert(ready@[a] == mid[a] && ready@[b] == mid[b]);
                } else if a < mid.len() {
                    assert(ready@[a] == mid[a]);
                    lemma_ready_since_range(es, done, k, mid[a] as int);
                } else {
                }
            }
            assert(ordered@ == done.push(c));
            assert forall|p: int| 0 <= p <= done.len() implies #[trigger] ordered@.take(p)
                == done.take(p) by {
                assert(ordered@.take(p) =~= done.take(p));
            }
            assert(done.push(c).take(done.len() as int) =~= done);
            assert forall|p: int, j: int|
                0 <= p < ordered@.len() && 0 <= j < n && #[trigger] edge_count(
                    es,
                    j,
                    ordered@[p] as int,
                ) > 0 implies ordered@.take(p).contains(j as usize) by {
                if p < done.len() {
                    assert(ordered@[p] == done[p]);
                    assert(ordered@.take(p) == done.take(p));
                } else {
                    assert(ordered@[p] == c);
                }
            }
            assert forall|p: int, y: int|
                0 <= p < ordered@.len() && #[trigger] ready_in(es, ordered@.take(p), y)
                    implies step_score(db, es, eff, ordered@.take(p), y) <= step_score(
                    db,
                    es,
                    eff,
                    ordered@.take(p),
                    ordered@[p] as int,
                ) by {
                if p < done.len() {
                    assert(ordered@[p] == done[p]);
                    assert(ordered@.take(p) == done.take(p));
                } else {
                    assert(ordered@[p] == c);
                    assert(ordered@.take(p) == done);
                    assert(old_ready.contains(y as usize));
                    let t = choose|t: int| 0 <= t < old_ready.len() && old_ready[t] == y as usize;
                    assert(step_score(db, es, eff, done, old_ready[t] as int) <= step_score(
                        db,
                        es,
                        eff,
                        done,
                        old_ready[pos as int] as int,
                    ));
                }
            }
            assert forall|v: usize| #[trigger] ordered@.contains(v) == (done.contains(v) || v == c) by {
                lemma_push_contains(done, c, v);
            }
            assert forall|a: int, b: int|
                0 <= a < ordered@.len() && 0 <= b < ordered@.len() && a != b implies ordered@[a]
                != ordered@[b] by {
                if a == done.len() {
                    assert(done.contains(ordered@[b]));
                } else if b == done.len() {
                    assert(done.contains(ordered@[a]));
                }
            }
            lemma_distinct_len(ordered@, n);
        }
    }
    let ghost kahn = ordered@;
    let ghost m = kahn.len() as int;
    proof {
        assert forall|y: int| 0 <= y < n implies (indeg@[y] == 0 <==> kahn.contains(y as usize)) by {
            if !kahn.contains(y as usize) {
                assert(!ready@.contains(y as usize));
            }
        }
        assert forall|y: int| 0 <= y < n && !kahn.contains(y as usize) implies blocked(es, kahn, y) by {
            lemma_pending_zero(adj@, kahn, y, n as int);
            assert(indeg@[y] == pending(adj@, kahn, y, n as int));
            assert(indeg@[y] != 0);
            let j = choose|j: int|
                0 <= j < n && !kahn.contains(j as usize) && #[trigger] occ(adj@[j]@, y) != 0;
            assert(edge_count(es, j, y) > 0);
        }
    }
    let mut result = ordered;
    let mut i: usize = 0;
    while i < n
        invariant
            i <= n == es.len(),
            indeg@.len() == n,
            m == kahn.len(),
            kahn.no_duplicates(),
            forall|k: int| 0 <= k < m ==> kahn[k] < n,
            forall|y: int| 0 <= y < n ==> (indeg@[y] == 0 <==> kahn.contains(y as usize)),
            result@.len() >= m,
            result@.take(m) == kahn,
            result@.no_duplicates(),
            forall|k: int| m <= k < result@.len() ==> result@[k] < i && !kahn.contains(result@[k]),
            forall|a: int, b: int| m <= a < b < result@.len() ==> result@[a] < result@[b],
            forall|y: int|
                0 <= y < i && !kahn.contains(y as usize) ==> #[trigger] result@.contains(y as usize),
        decreases n - i,
    {
        if indeg[i] != 0 {
            let ghost old_res = result@;
            result.push(i);
            proof {
                assert(result@.take(m) =~= old_res.take(m));
                assert forall|y: int|
                    0 <= y < i + 1 && !kahn.contains(y as usize) implies #[trigger] result@.contains(
                    y as usize,
                ) by {
                    lemma_push_contains(old_res, i, y as usize);
                }
                assert forall|a: int, b: int|
                    0 <= a < result@.len() && 0 <= b < result@.len() && a != b implies result@[a]
                    != result@[b] by {
                    if a == old_res.len() && b < m {
                        assert(result@[b] == kahn[b]);
                    } else if b == old_res.len() && a < m {
                        assert(result@[a] == kahn[a]);
                    }
                }
            }
        }
        i = i + 1;
    }
    proof {
        assert forall|k: int| 0 <= k < result@.len() implies result@[k] < n by {
            if k < m {
                assert(result@[k] == kahn[k]);
            }
        }
        assert forall|y: usize| y < n implies result@.contains(y) by {
            if kahn.contains(y) {
                let k = choose|k: int| 0 <= k < m && kahn[k] == y;
                assert(result@[k] == y);
            } else {
                assert(!kahn.contains((y as int) as usize));
                assert(result@.contains((y as int) as usize));
            }
        }
        lemma_distinct_len(result@, n);
        let r = result@;
        assert forall|p: int| 0 <= p <= m implies #[trigger] r.take(p) == kahn.take(p) by {
            assert(r.take(p) =~= kahn.take(p));
        }
        assert(kahn_order(db, es, eff, r, m)) by {
            assert forall|p: int, j: int|
                0 <= p < m && 0 <= j < es.len() && #[trigger] edge_count(es, j, r[p] as int) > 0
                    implies r.take(p).contains(j as usize) by {
                assert(r[p] == kahn[p]);
                assert(r.take(p) == kahn.take(p));
            }
            assert forall|p: int, y: int|
                0 <= p < m && #[trigger] ready_in(es, r.take(p), y) implies step_score(
                    db,
                    es,
                    eff,
                    r.take(p),
                    y,
                ) <= step_score(db, es, eff, r.take(p), r[p] as int) by {
                assert(r[p] == kahn[p]);
                assert(r.take(p) == kahn.take(p));
            }
            assert forall|p: int| m <= p < r.len() implies #[trigger] blocked(es, r.take(m), r[p] as int) by {
                assert(!kahn.contains(r[p]));
            }
        }
    }
    result
}


// ---------------------------------------------------------------------------
// Laws
// ---------------------------------------------------------------------------

proof fn lemma_min_rank(s: Seq<usize>, rank: spec_fn(int) -> int) -> (i: int)
    requires
        s.len() > 0,
    ensures
        0 <= i < s.len(),
        forall|k: int| 0 <= k < s.len() ==> rank(s[i] as int) <= rank(#[trigger] s[k] as int),
    decreases s.len(),
{
    if s.len() == 1 {
        0
    } else {
        let i0 = lemma_min_rank(s.drop_last(), rank);
        assert forall|k: int| 0 <= k < s.len() - 1 implies rank(s[i0] as int) <= rank(
            #[trigger] s[k] as int,
        ) by {
            assert(s.drop_last()[k] == s[k]);
        }
        if rank(s.last() as int) < rank(s[i0] as int) {
            (s.len() - 1) as int
        } else {
            i0
        }
    }
}

proof fn lemma_permutation_contains(r: Seq<usize>, n: usize, y: usize)
    requires
        is_permutation(r, n as int),
        y < n,
    ensures
        r.contains(y),
{
    lemma_below(n);
    r.unique_seq_to_set();
    if !r.contains(y) {
        assert(r.to_set().subset_of(below(n).remove(y)));
        vstd::set_lib::lemma_len_subset(r.to_set(), below(n).remove(y));
    }
}

proof fn lemma_ranked_prefix_complete(
    es: Seq<PlanEntry>,
    r: Seq<usize>,
    m: int,
    rank: spec_fn(int) -> int,
)
    requires
        es.len() <= usize::MAX,
        is_permutation(r, es.len() as int),
        0 <= m <= r.len(),
        forall|p: int, j: int|
            0 <= p < m && 0 <= j < es.len() && #[trigger] edge_count(es, j, r[p] as int) > 0
                ==> r.take(p).contains(j as usize),
        forall|p: int| #![trigger r[p]] m <= p < r.len() ==> blocked(es, r.take(m), r[p] as int),
        forall|j: int, x: int|
            0 <= j < es.len() && 0 <= x < es.len() && #[trigger] edge_count(es, j, x) > 0 ==> rank(
                j,
            ) < rank(x),
    ensures
        forall|a: int, b: int|
            0 <= a < r.len() && 0 <= b < r.len() && #[trigger] edge_count(
                es,
                r[b] as int,
                r[a] as int,
            ) > 0 ==> b < a,
        m == r.len(),
{
    let n = es.len() as usize;
    if m < r.len() {
        let rest = r.subrange(m, r.len() as int);
        let i = lemma_min_rank(rest, rank);
        let x = rest[i];
        assert(x == r[m + i]);
        assert(blocked(es, r.take(m), r[m + i] as int));
        let j = choose|j: int|
            0 <= j < es.len() && !r.take(m).contains(j as usize) && #[trigger] edge_count(
                es,
                j,
                x as int,
            ) > 0;
        lemma_permutation_contains(r, n, j as usize);
        let q = choose|q: int| 0 <= q < r.len() && r[q] == j as usize;
        if q < m {
            assert(r.take(m)[q] == j as usize);
        }
        assert(rest[q - m] == r[q]);
        assert(rank(x as int) <= rank(rest[q - m] as int));
        assert(false);
    }
    assert forall|a: int, b: int|
        0 <= a < r.len() && 0 <= b < r.len() && #[trigger] edge_count(es, r[b] as int, r[a] as int)
            > 0 implies b < a by {
        assert(r.take(a).contains(r[b]));
        let q = choose|q: int| 0 <= q < r.take(a).len() && r.take(a)[q] == r[b];
        assert(r[q] == r[b]);
    }
}

/// Law: when the dependency edges of the queue admit a ranking (no cycle among
/// the queued entries), the reordered queue trains every entry after each
/// entry it depends on: prerequisites first, and the levels of one skill in
/// ascending order.
pub proof fn lemma_order_respects_dependencies(
    db: Seq<SkillInfo>,
    es: Seq<PlanEntry>,
    eff: EffectiveAttributes,
    r: Seq<usize>,
    rank: spec_fn(int) -> int,
)
    requires
        es.len() <= usize::MAX,
        queue_order(db, es, eff, r),
        forall|j: int, x: int|
            0 <= j < es.len() && 0 <= x < es.len() && #[trigger] edge_count(es, j, x) > 0 ==> rank(
                j,
            ) < rank(x),
    ensures
        forall|a: int, b: int|
            0 <= a < r.len() && 0 <= b < r.len() && #[trigger] edge_count(
                es,
                r[b] as int,
                r[a] as int,
            ) > 0 ==> b < a,
{
    let m = choose|m: int| kahn_order(db, es, eff, r, m);
    lemma_ranked_prefix_complete(es, r, m, rank);
}


/// Same-skill order as a number: target level first, then queue place.
spec fn chain_key(es: Seq<PlanEntry>, k: int) -> int {
    es[k].target_level * es.len() + k
}

proof fn lemma_chain_key(es: Seq<PlanEntry>, a: int, b: int)
    requires
        0 <= a < es.len(),
        0 <= b < es.len(),
        chain_before(es, a, b),
    ensures
        chain_key(es, a) < chain_key(es, b),
{
    let n = es.len() as int;
    let la = es[a].target_level as int;
    let lb = es[b].target_level as int;
    if la < lb {
        assert(la * n + a < lb * n + b) by (nonlinear_arith)
            requires
                la < lb,
                0 <= a < n,
                0 <= b,
                la >= 0,
        ;
    }
}

/// In an order that puts every entry after the entries it has an edge from,
/// an entry comes after every entry of its skill that is `chain_before` it.
proof fn lemma_chain_positions(es: Seq<PlanEntry>, r: Seq<usize>, pa: int, pb: int)
    requires
        es.len() <= usize::MAX,
        is_permutation(r, es.len() as int),
        forall|a: int, b: int|
            0 <= a < r.len() && 0 <= b < r.len() && #[trigger] edge_count(
                es,
                r[b] as int,
                r[a] as int,
            ) > 0 ==> b < a,
        0 <= pa < r.len(),
        0 <= pb < r.len(),
        chain_before(es, r[pa] as int, r[pb] as int),
    ensures
        pa < pb,
    decreases chain_key(es, r[pb] as int) - chain_key(es, r[pa] as int),
{
    let a = r[pa] as int;
    let b = r[pb] as int;
    lemma_chain_key(es, a, b);
    if chain_edge(es, a, b) {
        assert(edge_count(es, r[pa] as int, r[pb] as int) > 0);
    } else {
        let k = choose|k: int| 0 <= k < es.len() && #[trigger] chain_before(es, a, k) && chain_before(es, k, b);
        lemma_permutation_contains(r, es.len() as usize, k as usize);
        let pk = choose|i: int| 0 <= i < r.len() && r[i] == k as usize;
        lemma_chain_key(es, a, k);
        lemma_chain_key(es, k, b);
        lemma_chain_positions(es, r, pa, pk);
        lemma_chain_positions(es, r, pk, pb);
    }
}

/// Law: when the dependency edges admit a ranking (no cycle), the reordered
/// queue trains the levels of each skill in ascending order.
pub proof fn lemma_same_skill_levels_ascend(
    db: Seq<SkillInfo>,
    es: Seq<PlanEntry>,
    eff: EffectiveAttributes,
    r: Seq<usize>,
    rank: spec_fn(int) -> int,
)
    requires
        es.len() <= usize::MAX,
        queue_order(db, es, eff, r),
        forall|j: int, x: int|
            0 <= j < es.len() && 0 <= x < es.len() && #[trigger] edge_count(es, j, x) > 0 ==> rank(
                j,
            ) < rank(x),
    ensures
        forall|p: int, q: int|
            0 <= p < q < r.len() && es[#[trigger] r[p] as int].skill_id == es[#[trigger] r[q] as int].skill_id
                ==> es[r[p] as int].target_level <= es[r[q] as int].target_level,
{
    lemma_order_respects_dependencies(db, es, eff, r, rank);
    assert forall|p: int, q: int|
        0 <= p < q < r.len() && es[#[trigger] r[p] as int].skill_id == es[#[trigger] r[q] as int].skill_id
            implies es[r[p] as int].target_level <= es[r[q] as int].target_level by {
        if es[r[p] as int].target_level > es[r[q] as int].target_level {
            assert(chain_before(es, r[q] as int, r[p] as int));
            lemma_chain_positions(es, r, q, p);
        }
    }
}

proof fn lemma_explicit_count_pos(es: Seq<PlanEntry>, j: int, x: int, m: int, q: int)
    requires
        0 <= q < m,
        prereq_source(es, x, q) == Some(j),
    ensures
        explicit_count(es, j, x, m) > 0,
    decreases m,
{
    if q < m - 1 {
        lemma_explicit_count_pos(es, j, x, m - 1, q);
    }
}

/// Law: when the dependency edges admit a ranking (no cycle), each
/// prerequisite of a queued entry that another queued entry provides (the
/// entry `prereq_source` picks) is trained before it.
pub proof fn lemma_prerequisites_first(
    db: Seq<SkillInfo>,
    es: Seq<PlanEntry>,
    eff: EffectiveAttributes,
    r: Seq<usize>,
    rank: spec_fn(int) -> int,
)
    requires
        es.len() <= usize::MAX,
        queue_order(db, es, eff, r),
        forall|j: int, x: int|
            0 <= j < es.len() && 0 <= x < es.len() && #[trigger] edge_count(es, j, x) > 0 ==> rank(
                j,
            ) < rank(x),
    ensures
        forall|a: int, b: int, q: int|
            0 <= a < r.len() && 0 <= b < r.len() && 0 <= q < es[r[b] as int].prerequisites@.len()
                && #[trigger] prereq_source(es, r[b] as int, q) == Some(#[trigger] r[a] as int) ==> a < b,
{
    lemma_order_respects_dependencies(db, es, eff, r, rank);
    assert forall|a: int, b: int, q: int|
        0 <= a < r.len() && 0 <= b < r.len() && 0 <= q < es[r[b] as int].prerequisites@.len()
            && #[trigger] prereq_source(es, r[b] as int, q) == Some(#[trigger] r[a] as int) implies a < b by {
        lemma_explicit_count_pos(es, r[a] as int, r[b] as int, es[r[b] as int].prerequisites@.len() as int, q);
        assert(edge_count(es, r[a] as int, r[b] as int) > 0);
    }
}


proof fn lemma_dom_scan_props(es: Seq<PlanEntry>, x: int, req: (u32, u8), k: int)
    requires
        0 <= k <= es.len(),
    ensures
        match dom_scan(es, x, req, k) {
            None => forall|i: int| 0 <= i < k ==> !(i != x && #[trigger] es[i].skill_id == req.0),
            Some(j) => {
                &&& 0 <= j < k
                &&& j != x
                &&& es[j].skill_id == req.0
                &&& forall|i: int|
                    0 <= i < k && i != x && #[trigger] es[i].skill_id == req.0 ==> dom_key(es, i, req.1)
                        < dom_key(es, j, req.1) || (dom_key(es, i, req.1) == dom_key(es, j, req.1)
                        && i <= j)
            },
        },
    decreases k,
{
    if k > 0 {
        lemma_dom_scan_props(es, x, req, k - 1);
    }
}

/// Law: when the dependency edges admit a ranking (no cycle), for each
/// prerequisite (skill, level) of a queued entry that other queued entries
/// train, the entry training that skill to the lowest level at least the one
/// required is trained first; and when none reaches the level, every other
/// queued entry of that skill is.
pub proof fn lemma_prerequisite_levels_first(
    db: Seq<SkillInfo>,
    es: Seq<PlanEntry>,
    eff: EffectiveAttributes,
    r: Seq<usize>,
    rank: spec_fn(int) -> int,
)
    requires
        es.len() <= usize::MAX,
        queue_order(db, es, eff, r),
        forall|j: int, x: int|
            0 <= j < es.len() && 0 <= x < es.len() && #[trigger] edge_count(es, j, x) > 0 ==> rank(
                j,
            ) < rank(x),
    ensures
        forall|a: int, b: int, q: int|
            #![trigger r[a], r[b], es[r[b] as int].prerequisites@[q]]
            0 <= a < r.len() && 0 <= b < r.len() && r[a] != r[b] && 0 <= q
                < es[r[b] as int].prerequisites@.len() && es[r[a] as int].skill_id
                == es[r[b] as int].prerequisites@[q].0 && ({
                let req = es[r[b] as int].prerequisites@[q];
                if es[r[a] as int].target_level >= req.1 {
                    forall|k: int|
                        0 <= k < es.len() && k != r[b] && es[k].skill_id == req.0 && es[k].target_level
                            >= req.1 ==> es[k].target_level >= es[r[a] as int].target_level
                } else {
                    forall|k: int|
                        0 <= k < es.len() && k != r[b] && es[k].skill_id == req.0 ==> es[k].target_level
                            < req.1
                }
            }) ==> a < b,
{
    lemma_prerequisites_first(db, es, eff, r, rank);
    lemma_order_respects_dependencies(db, es, eff, r, rank);
    assert forall|a: int, b: int, q: int|
        #![trigger r[a], r[b], es[r[b] as int].prerequisites@[q]]
        0 <= a < r.len() && 0 <= b < r.len() && r[a] != r[b] && 0 <= q
            < es[r[b] as int].prerequisites@.len() && es[r[a] as int].skill_id
            == es[r[b] as int].prerequisites@[q].0 && ({
            let req = es[r[b] as int].prerequisites@[q];
            if es[r[a] as int].target_level >= req.1 {
                forall|k: int|
                    0 <= k < es.len() && k != r[b] && es[k].skill_id == req.0 && es[k].target_level
                        >= req.1 ==> es[k].target_level >= es[r[a] as int].target_level
            } else {
                forall|k: int|
                    0 <= k < es.len() && k != r[b] && es[k].skill_id == req.0 ==> es[k].target_level
                        < req.1
            }
        }) implies a < b by {
        let x = r[b] as int;
        let e = r[a] as int;
        let req = es[x].prerequisites@[q];
        let n = es.len() as int;
        lemma_dom_scan_props(es, x, req, n);
        assert(e != x && es[e].skill_id == req.0);
        let j = dom_scan(es, x, req, n)->0;
        assert(prereq_source(es, x, q) == Some(j));
        lemma_permutation_contains(r, n as usize, j as usize);
        let pj = choose|i: int| 0 <= i < r.len() && r[i] == j as usize;
        assert(prereq_source(es, r[b] as int, q) == Some(r[pj] as int));
        assert(pj < b);
        if e != j {
            assert(dom_key(es, e, req.1) < dom_key(es, j, req.1) || (dom_key(es, e, req.1) == dom_key(
                es,
                j,
                req.1,
            ) && e <= j));
            if es[e].target_level >= req.1 {
                assert(es[j].target_level >= req.1);
            } else {
                assert(es[j].target_level < req.1);
            }
            assert(chain_before(es, e, j));
            lemma_chain_positions(es, r, a, pj);
        }
    }
}


/// How fast an entry's skill trains under `eff`, in half attribute points:
/// twice the primary attribute's value plus the secondary's.
pub open spec fn training_rate(db: Seq<SkillInfo>, es: Seq<PlanEntry>, eff: EffectiveAttributes, x: int) -> int {
    let pr = attrs_for(db, es[x].skill_id);
    2 * eff_get(eff, pr.0) + eff_get(eff, pr.1)
}

proof fn lemma_cluster_count_le(db: Seq<SkillInfo>, es: Seq<PlanEntry>, pre: Seq<usize>, x: int, k: int)
    ensures
        cluster_count(db, es, pre, x, k) <= if k < 0 { 0 } else { k },
    decreases k,
{
    if k > 0 {
        lemma_cluster_count_le(db, es, pre, x, k - 1);
    }
}

/// Law: when the dependency edges admit a ranking (no cycle), no skill is
/// scheduled while another ready skill trains strictly faster under the
/// current attributes (primary plus half the secondary), unless the rates are
/// at the score's cap (`u32::MAX` millionths).
pub proof fn lemma_faster_skill_first(
    db: Seq<SkillInfo>,
    es: Seq<PlanEntry>,
    eff: EffectiveAttributes,
    r: Seq<usize>,
    rank: spec_fn(int) -> int,
)
    requires
        es.len() <= usize::MAX,
        queue_order(db, es, eff, r),
        forall|j: int, x: int|
            0 <= j < es.len() && 0 <= x < es.len() && #[trigger] edge_count(es, j, x) > 0 ==> rank(
                j,
            ) < rank(x),
    ensures
        forall|p: int, x: int|
            0 <= p < r.len() && #[trigger] ready_in(es, r.take(p), x) && training_rate(db, es, eff, x)
                > training_rate(db, es, eff, r[p] as int) && training_rate(db, es, eff, x) > 0
                ==> (training_rate(db, es, eff, r[p] as int) + 1) * 500000 > u32::MAX,
{
    let m = choose|m: int| kahn_order(db, es, eff, r, m);
    lemma_ranked_prefix_complete(es, r, m, rank);
    let n = es.len() as int;
    assert forall|p: int, x: int|
        0 <= p < r.len() && #[trigger] ready_in(es, r.take(p), x) && training_rate(db, es, eff, x)
            > training_rate(db, es, eff, r[p] as int) && training_rate(db, es, eff, x) > 0
            implies (training_rate(db, es, eff, r[p] as int) + 1) * 500000 > u32::MAX by {
        let c = r[p] as int;
        let pre = r.take(p);
        let rx = training_rate(db, es, eff, x);
        let rc = training_rate(db, es, eff, c);
        if (rc + 1) * 500000 <= u32::MAX {
            let sx = rate_score(eff, attrs_for(db, es[x].skill_id));
            let sc = rate_score(eff, attrs_for(db, es[c].skill_id));
            assert(rx * 500000 >= (rc + 1) * 500000) by (nonlinear_arith)
                requires
                    rx >= rc + 1,
            ;
            assert(sx >= sc + 500000);
            lemma_cluster_count_le(db, es, pre, x, n);
            lemma_cluster_count_le(db, es, pre, c, n);
            let tx = step_score(db, es, eff, pre, x);
            let tc = step_score(db, es, eff, pre, c);
            assert(sx * (n + 1) >= sc * (n + 1) + 500000 * (n + 1)) by (nonlinear_arith)
                requires
                    sx >= sc + 500000,
                    n >= 0,
            ;
            assert(tx > tc);
            assert(tx <= tc);
        }
    }
}

} // verus!
