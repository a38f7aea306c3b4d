//! The attribute distributions a neural remap can produce.
use vstd::prelude::*;
use crate::attributes::BaseAttributes;

verus! {

/// Base value of every attribute before remapping; no attribute can go lower.
pub const BASE_ATTR_VAL: u32 = 17;

/// Free points distributed above base in a remap.
pub const REMAP_FREE_POINTS: u32 = 14;

/// Most points a remap can add to a single attribute.
pub const MAX_ADD_PER_ATTR: u32 = 10;

/// Sum of the five attributes after a remap (17 * 5 + 14).
pub const ATTR_SUM: u32 = 99;

/// Highest value an attribute can have after a remap.
pub const MAX_ATTR_AFTER_REMAP: u32 = 27;

pub open spec fn in_remap_range(v: u32) -> bool {
    BASE_ATTR_VAL <= v <= MAX_ATTR_AFTER_REMAP
}

/// A distribution a remap can produce: every attribute within 17..=27 and the
/// points above base summing to 14 (the five values summing to 99).
pub open spec fn valid_allocation(a: BaseAttributes) -> bool {
    &&& in_remap_range(a.intelligence)
    &&& in_remap_range(a.charisma)
    &&& in_remap_range(a.perception)
    &&& in_remap_range(a.memory)
    &&& in_remap_range(a.willpower)
    &&& a.intelligence + a.charisma + a.perception + a.memory + a.willpower == ATTR_SUM
}

/// Position of `(i, c, p, m)` in lexicographic order of values below 32.
pub open spec fn lex_key(i: int, c: int, p: int, m: int) -> int {
    ((i * 32 + c) * 32 + p) * 32 + m
}

pub open spec fn alloc_key(a: BaseAttributes) -> int {
    lex_key(a.intelligence as int, a.charisma as int, a.perception as int, a.memory as int)
}

/// What `results` holds after the distributions before position `bound`
/// (in lexicographic order) have been emitted.
pub open spec fn emitted_below(results: Seq<BaseAttributes>, bound: int) -> bool {
    &&& forall|k: int| 0 <= k < results.len() ==> valid_allocation(#[trigger] results[k])
    &&& forall|k: int| 0 <= k < results.len() ==> alloc_key(#[trigger] results[k]) < bound
    &&& forall|k1: int, k2: int|
        0 <= k1 < k2 < results.len() ==> alloc_key(#[trigger] results[k1]) < alloc_key(
            #[trigger] results[k2],
        )
    &&& forall|a: BaseAttributes|
        valid_allocation(a) && alloc_key(a) < bound ==> #[trigger] results.contains(a)
}

/// Lexicographic comparison of keys whose components lie in 0..32.
proof fn lemma_lex_order(i1: int, c1: int, p1: int, m1: int, i2: int, c2: int, p2: int, m2: int)
    requires
        0 <= c1 < 32,
        0 <= p1 < 32,
        0 <= m1 < 32,
        0 <= c2 < 32,
        0 <= p2 < 32,
        0 <= m2 < 32,
    ensures
        lex_key(i1, c1, p1, m1) < lex_key(i2, c2, p2, m2) <==> (i1 < i2 || (i1 == i2 && (c1 < c2
            || (c1 == c2 && (p1 < p2 || (p1 == p2 && m1 < m2)))))),
{
}

/// Position of a distribution compared with a position given by components.
proof fn lemma_key_vs(a: BaseAttributes, i: int, c: int, p: int, m: int)
    requires
        valid_allocation(a),
        0 <= c < 32,
        0 <= p < 32,
        0 <= m < 32,
    ensures
        alloc_key(a) < lex_key(i, c, p, m) <==> (a.intelligence < i || (a.intelligence == i && (
        a.charisma < c || (a.charisma == c && (a.perception < p || (a.perception == p
            && a.memory < m)))))),
{
    lemma_lex_order(
        a.intelligence as int,
        a.charisma as int,
        a.perception as int,
        a.memory as int,
        i,
        c,
        p,
        m,
    );
}

proof fn lemma_emitted_widen(results: Seq<BaseAttributes>, b1: int, b2: int)
    requires
        emitted_below(results, b1),
        b1 <= b2,
        forall|a: BaseAttributes| valid_allocation(a) ==> !(b1 <= #[trigger] alloc_key(a) < b2),
    ensures
        emitted_below(results, b2),
{
}

/// Emitting the distribution at the current position advances the bound by one.
proof fn lemma_emit_one(results: Seq<BaseAttributes>, a: BaseAttributes)
    requires
        emitted_below(results, alloc_key(a)),
        valid_allocation(a),
    ensures
        emitted_below(results.push(a), alloc_key(a) + 1),
{
    let r = results.push(a);
    assert(r[results.len() as int] == a);
    assert forall|b: BaseAttributes|
        valid_allocation(b) && alloc_key(b) < alloc_key(a) + 1 implies #[trigger] r.contains(
        b) by {
        if alloc_key(b) < alloc_key(a) {
            assert(results.contains(b));
            let j = choose|j: int| 0 <= j < results.len() && results[j] == b;
            assert(r[j] == b);
        } else {
            lemma_key_vs(
                b,
                a.intelligence as int,
                a.charisma as int,
                a.perception as int,
                a.memory as int,
            );
            lemma_key_vs(
                a,
                b.intelligence as int,
                b.charisma as int,
                b.perception as int,
                b.memory as int,
            );
            assert(b == a);
        }
    }
    assert forall|k: int| 0 <= k < r.len() implies valid_allocation(#[trigger] r[k]) by {
        if k < results.len() {
            assert(r[k] == results[k]);
        }
    }
}

/// Emit the distributions with the given intelligence, charisma and perception.
fn push_memory_range(results: &mut Vec<BaseAttributes>, intel: u32, cha: u32, per: u32)
    requires
        17 <= intel <= 27,
        17 <= cha <= 27,
        17 <= per <= 27,
        emitted_below(old(results)@, lex_key(intel as int, cha as int, per as int, 17)),
    ensures
        emitted_below(final(results)@, lex_key(intel as int, cha as int, per as int + 1, 17)),
{
    let mut mem: u32 = BASE_ATTR_VAL;
    while mem <= MAX_ATTR_AFTER_REMAP && intel + cha + per + mem <= ATTR_SUM
        invariant
            17 <= intel <= 27,
            17 <= cha <= 27,
            17 <= per <= 27,
            17 <= mem <= 28,
            emitted_below(results@, lex_key(intel as int, cha as int, per as int, mem as int)),
        decreases 28 - mem,
    {
        let wil = ATTR_SUM - (intel + cha + per + mem);
        if wil >= BASE_ATTR_VAL && wil <= MAX_ATTR_AFTER_REMAP {
            let a = BaseAttributes {
                intelligence: intel,
                charisma: cha,
                perception: per,
                memory: mem,
                willpower: wil,
            };
            proof {
                lemma_emit_one(results@, a);
            }
            results.push(a);
        } else {
            proof {
                assert forall|b: BaseAttributes| valid_allocation(b) implies !(lex_key(
                    intel as int,
                    cha as int,
                    per as int,
                    mem as int,
                ) <= #[trigger] alloc_key(b) < lex_key(
                    intel as int,
                    cha as int,
                    per as int,
                    mem + 1,
                )) by {
                    lemma_key_vs(b, intel as int, cha as int, per as int, mem as int);
                    lemma_key_vs(b, intel as int, cha as int, per as int, mem + 1);
                }
                lemma_emitted_widen(
                    results@,
                    lex_key(intel as int, cha as int, per as int, mem as int),
                    lex_key(intel as int, cha as int, per as int, mem + 1),
                );
            }
        }
        mem = mem + 1;
    }
    proof {
        assert forall|b: BaseAttributes| valid_allocation(b) implies !(lex_key(
            intel as int,
            cha as int,
            per as int,
            mem as int,
        ) <= #[trigger] alloc_key(b) < lex_key(intel as int, cha as int, per as int + 1, 17)) by {
            lemma_key_vs(b, intel as int, cha as int, per as int, mem as int);
            lemma_key_vs(b, intel as int, cha as int, per as int + 1, 17);
        }
        lemma_emitted_widen(
            results@,
            lex_key(intel as int, cha as int, per as int, mem as int),
            lex_key(intel as int, cha as int, per as int + 1, 17),
        );
    }
}

/// Emit the distributions with the given intelligence and charisma.
fn push_perception_range(results: &mut Vec<BaseAttributes>, intel: u32, cha: u32)
    requires
        17 <= intel <= 27,
        17 <= cha <= 27,
        emitted_below(old(results)@, lex_key(intel as int, cha as int, 17, 17)),
    ensures
        emitted_below(final(results)@, lex_key(intel as int, cha as int + 1, 17, 17)),
{
    let mut per: u32 = BASE_ATTR_VAL;
    while per <= MAX_ATTR_AFTER_REMAP
        invariant
            17 <= intel <= 27,
            17 <= cha <= 27,
            17 <= per <= 28,
            emitted_below(results@, lex_key(intel as int, cha as int, per as int, 17)),
        decreases 28 - per,
    {
        push_memory_range(results, intel, cha, per);
        per = per + 1;
    }
    proof {
        assert forall|b: BaseAttributes| valid_allocation(b) implies !(lex_key(
            intel as int,
            cha as int,
            28,
            17,
        ) <= #[trigger] alloc_key(b) < lex_key(intel as int, cha as int + 1, 17, 17)) by {
            lemma_key_vs(b, intel as int, cha as int, 28, 17);
            lemma_key_vs(b, intel as int, cha as int + 1, 17, 17);
        }
        lemma_emitted_widen(
            results@,
            lex_key(intel as int, cha as int, 28, 17),
            lex_key(intel as int, cha as int + 1, 17, 17),
        );
    }
}

/// Emit the distributions with the given intelligence.
fn push_charisma_range(results: &mut Vec<BaseAttributes>, intel: u32)
    requires
        17 <= intel <= 27,
        emitted_below(old(results)@, lex_key(intel as int, 17, 17, 17)),
    ensures
        emitted_below(final(results)@, lex_key(intel as int + 1, 17, 17, 17)),
{
    let mut cha: u32 = BASE_ATTR_VAL;
    while cha <= MAX_ATTR_AFTER_REMAP
        invariant
            17 <= intel <= 27,
            17 <= cha <= 28,
            emitted_below(results@, lex_key(intel as int, cha as int, 17, 17)),
        decreases 28 - cha,
    {
        push_perception_range(results, intel, cha);
        cha = cha + 1;
    }
    proof {
        assert forall|b: BaseAttributes| valid_allocation(b) implies !(lex_key(
            intel as int,
            28,
            17,
            17,
        ) <= #[trigger] alloc_key(b) < lex_key(intel as int + 1, 17, 17, 17)) by {
            lemma_key_vs(b, intel as int, 28, 17, 17);
            lemma_key_vs(b, intel as int + 1, 17, 17, 17);
        }
        lemma_emitted_widen(
            results@,
            lex_key(intel as int, 28, 17, 17),
            lex_key(intel as int + 1, 17, 17, 17),
        );
    }
}

/// Enumerate every valid attribute distribution for a remap, in increasing
/// lexicographic order of (intelligence, charisma, perception, memory).
pub fn generate_allocations() -> (r: Vec<BaseAttributes>)
    ensures
        forall|k: int| 0 <= k < r@.len() ==> valid_allocation(#[trigger] r@[k]),
        forall|k1: int, k2: int|
            0 <= k1 < k2 < r@.len() ==> alloc_key(#[trigger] r@[k1]) < alloc_key(
                #[trigger] r@[k2],
            ),
        forall|a: BaseAttributes| valid_allocation(a) ==> #[trigger] r@.contains(a),
{
    let mut results: Vec<BaseAttributes> = Vec::new();
    let mut intel: u32 = BASE_ATTR_VAL;
    while intel <= MAX_ATTR_AFTER_REMAP
        invariant
            17 <= intel <= 28,
            emitted_below(results@, lex_key(intel as int, 17, 17, 17)),
        decreases 28 - intel,
    {
        push_charisma_range(&mut results, intel);
        intel = intel + 1;
    }
    proof {
        assert forall|a: BaseAttributes| valid_allocation(a) implies #[trigger] results@.contains(
            a) by {
            lemma_key_vs(a, 28, 17, 17, 17);
        }
    }
    results
}

} // verus!
