//! The live skill queue from ESI as queue-file text: one `Skill Name <level>`
//! line per entry in queue order, with `@<sp>` when training has started, so
//! that it reads back through the same path as a queue file.
use vstd::prelude::*;
use crate::esi::EsSkillQueueEntry;
use crate::reorder::{is_permutation, SkillInfo};
use crate::date::last_index;
use crate::duration::lemma_decimal;
use crate::queue::{
    ascii_lower, eq_ignore_ascii_case, last_ws, outcome_matches, skill_position, sp_number,
    LineOutcome, QueueProgress,
};
use crate::text::{
    all_digits, chars_of, decimal, digits_value, extend_chars, is_digit, is_ws, lead_ws,
    parse_unsigned, signed_decimal, string_from, trail_ws, trim, u64_to_chars,
};

verus! {

// ---------------------------------------------------------------------------
// Queue order
// ---------------------------------------------------------------------------

/// Entry `a` comes before entry `b` in queue order: lower queue position, or
/// the same position and earlier in the response.
pub open spec fn before_in_queue(qs: Seq<EsSkillQueueEntry>, a: int, b: int) -> bool {
    qs[a].queue_position < qs[b].queue_position || (qs[a].queue_position == qs[b].queue_position
        && a < b)
}

/// `order` lists the entries by queue position, ties in response order (a
/// stable sort by position).
pub open spec fn by_queue_position(qs: Seq<EsSkillQueueEntry>, order: Seq<usize>) -> bool {
    &&& is_permutation(order, qs.len() as int)
    &&& forall|a: int, b: int|
        0 <= a < b < order.len() ==> before_in_queue(qs, order[a] as int, order[b] as int)
}

/// Sort the entries by queue position, keeping the response order among
/// equal positions: the indices in sorted order.
pub fn sort_by_queue_position(qs: &[EsSkillQueueEntry]) -> (order: Vec<usize>)
    ensures
        by_queue_position(qs@, order@),
{
    let n = qs.len();
    let mut order: Vec<usize> = Vec::new();
    let mut i: usize = 0;
    while i < n
        invariant
            i <= n == qs@.len(),
            order@.len() == i,
            order@.no_duplicates(),
            forall|k: int| 0 <= k < order@.len() ==> order@[k] < i,
            forall|y: usize| y < i ==> order@.contains(y),
            forall|a: int, b: int|
                0 <= a < b < order@.len() ==> before_in_queue(qs@, order@[a] as int, order@[b] as int),
        decreases n - i,
    {
        // Insert entry i after every entry that is not after it.
        let mut p: usize = order.len();
        while p > 0 && qs[i].queue_position < qs[order[p - 1]].queue_position
            invariant
                i < n == qs@.len(),
                order@.len() == i,
                p <= order@.len(),
                forall|k: int| 0 <= k < order@.len() ==> order@[k] < i,
                forall|k: int| p <= k < order@.len() ==> before_in_queue(qs@, i as int, order@[k] as int),
            decreases p,
        {
            p = p - 1;
        }
        let ghost old_order = order@;
        order.insert(p, i);
        proof {
            assert forall|k: int| 0 <= k < order@.len() implies #[trigger] order@[k] == if k < p {
                old_order[k]
            } else if k == p {
                i
            } else {
                old_order[k - 1]
            } by {}
            assert forall|a: int, b: int|
                0 <= a < b < order@.len() implies before_in_queue(
                qs@,
                order@[a] as int,
                order@[b] as int,
            ) by {
                if b == p {
                    assert(!(qs@[i as int].queue_position < qs@[old_order[a] as int].queue_position))
                        by {
                        if p > 0 && a < p - 1 {
                            assert(before_in_queue(qs@, old_order[a] as int, old_order[p - 1] as int));
                        }
                    }
                }
            }
            assert forall|y: usize| y < i + 1 implies order@.contains(y) by {
                if y == i {
                    assert(order@[p as int] == y);
                } else {
                    assert(old_order.contains(y));
                    let k = choose|k: int| 0 <= k < old_order.len() && old_order[k] == y;
                    if k < p {
                        assert(order@[k] == y);
                    } else {
                        assert(order@[k + 1] == y);
                    }
                }
            }
            assert forall|a: int, b: int|
                0 <= a < order@.len() && 0 <= b < order@.len() && a != b implies order@[a]
                != order@[b] by {
                if a != p && b != p {
                    let oa = if a < p { a } else { a - 1 };
                    let ob = if b < p { b } else { b - 1 };
                    assert(order@[a] == old_order[oa] && order@[b] == old_order[ob]);
                }
            }
        }
        i = i + 1;
    }
    proof {
        crate::reorder::lemma_distinct_len(order@, n);
    }
    order
}

// ---------------------------------------------------------------------------
// Lines
// ---------------------------------------------------------------------------

/// `x as u8` for an `i32`: its low byte.
pub open spec fn low_byte(x: i32) -> u8 {
    (((x as int) % 256 + 256) % 256) as u8
}

/// `x as u32` for an `i32`: two's complement.
pub open spec fn as_unsigned(x: i32) -> u32 {
    if x < 0 {
        (x + 4294967296) as u32
    } else {
        x as u32
    }
}

/// Name of the last record with this id (the lookup table keeps the last).
pub open spec fn record_index(db: Seq<SkillInfo>, id: u32) -> int
    decreases db.len(),
{
    if db.len() == 0 {
        -1
    } else if db.last().id == id {
        db.len() - 1
    } else {
        record_index(db.drop_last(), id)
    }
}

/// The queue-file line of an entry for a skill named `name`.
pub open spec fn entry_line(e: EsSkillQueueEntry, name: Seq<char>) -> Seq<char> {
    let head = name + seq![' '] + decimal(low_byte(e.finished_level) as nat);
    if e.training_start_sp > e.level_start_sp {
        head + seq!['@'] + signed_decimal(e.training_start_sp as int)
    } else {
        head
    }
}

/// The lines for the entries listed in `order`, skipping target levels outside
/// 1 to 5; the skill id of the first entry with no record fails the whole.
pub open spec fn queue_lines_for(
    qs: Seq<EsSkillQueueEntry>,
    order: Seq<usize>,
    db: Seq<SkillInfo>,
) -> Result<Seq<Seq<char>>, i32>
    decreases order.len(),
{
    if order.len() == 0 {
        Ok(Seq::empty())
    } else {
        match queue_lines_for(qs, order.drop_last(), db) {
            Err(id) => Err(id),
            Ok(ls) => {
                let e = qs[order.last() as int];
                let lvl = low_byte(e.finished_level);
                if !(1 <= lvl <= 5) {
                    Ok(ls)
                } else {
                    let k = record_index(db, as_unsigned(e.skill_id));
                    if k < 0 {
                        Err(e.skill_id)
                    } else {
                        Ok(ls.push(entry_line(e, db[k].name@)))
                    }
                }
            },
        }
    }
}

/// Lines joined by `\n`.
pub open spec fn join_lines(ls: Seq<Seq<char>>) -> Seq<char>
    decreases ls.len(),
{
    if ls.len() == 0 {
        Seq::empty()
    } else if ls.len() == 1 {
        ls[0]
    } else {
        join_lines(ls.drop_last()) + seq!['\n'] + ls.last()
    }
}

fn record_of(db: &[SkillInfo], id: u32) -> (r: Option<usize>)
    ensures
        match r {
            Some(k) => k < db@.len() && record_index(db@, id) == k as int,
            None => record_index(db@, id) == -1,
        },
{
    let mut i: usize = db.len();
    proof {
        assert(db@.take(db@.len() as int) =~= db@);
    }
    while i > 0
        invariant
            i <= db@.len(),
            record_index(db@, id) == record_index(db@.take(i as int), id),
        decreases i,
    {
        proof {
            assert(db@.take(i as int).drop_last() =~= db@.take(i as int - 1));
        }
        if db[i - 1].id == id {
            return Some(i - 1);
        }
        i = i - 1;
    }
    None
}

fn signed_chars(x: i64) -> (r: Vec<char>)
    ensures
        r@ == signed_decimal(x as int),
{
    if x < 0 {
        let m: u64 = if x == i64::MIN {
            9223372036854775808u64
        } else {
            (0 - x) as u64
        };
        let mut r: Vec<char> = Vec::new();
        r.push('-');
        let d = u64_to_chars(m);
        extend_chars(&mut r, d.as_slice());
        proof {
            assert(r@ =~= seq!['-'] + decimal((-x) as nat));
        }
        r
    } else {
        u64_to_chars(x as u64)
    }
}

/// The ESI skill queue as queue-file text, or the skill id of the first entry
/// (in queue order, target level 1 to 5) that the data has no record of.
pub fn esi_queue_text(qs: &[EsSkillQueueEntry], skills_db: &[SkillInfo]) -> (r: Result<String, i32>)
    ensures
        exists|order: Seq<usize>|
            by_queue_position(qs@, order) && match queue_lines_for(qs@, order, skills_db@) {
                Ok(ls) => r matches Ok(s) && s@ == join_lines(ls),
                Err(id) => r == Err::<String, i32>(id),
            },
{
    let order = sort_by_queue_position(qs);
    let n = order.len();
    let mut text: Vec<char> = Vec::new();
    let ghost mut lines: Seq<Seq<char>> = Seq::empty();
    let mut i: usize = 0;
    while i < n
        invariant
            n == order@.len() == qs@.len(),
            by_queue_position(qs@, order@),
            i <= n,
            queue_lines_for(qs@, order@.take(i as int), skills_db@) == Ok::<Seq<Seq<char>>, i32>(lines),
            text@ == join_lines(lines),
            (text@.len() == 0) == (lines.len() == 0),
        decreases n - i,
    {
        proof {
            assert(order@.take(i + 1).drop_last() =~= order@.take(i as int));
        }
        let e = &qs[order[i]];
        let x = e.finished_level as i64;
        let lvl = (((x % 256) + 256) % 256) as u8;
        if lvl >= 1 && lvl <= 5 {
            let id: u32 = if e.skill_id < 0 {
                (e.skill_id as i64 + 4294967296i64) as u32
            } else {
                e.skill_id as u32
            };
            let k = match record_of(skills_db, id) {
                Some(k) => k,
                None => {
                    proof {
                        assert(queue_lines_for(qs@, order@.take(i + 1), skills_db@) == Err::<
                            Seq<Seq<char>>,
                            i32,
                        >(e.skill_id));
                        lemma_lines_err_extends(qs@, order@, skills_db@, (i + 1) as int, e.skill_id);
                    }
                    return Err(e.skill_id);
                },
            };
            let mut line: Vec<char> = chars_of(skills_db[k].name.as_str());
            line.push(' ');
            let d = u64_to_chars(lvl as u64);
            extend_chars(&mut line, d.as_slice());
            if e.training_start_sp > e.level_start_sp {
                line.push('@');
                let sp = signed_chars(e.training_start_sp);
                extend_chars(&mut line, sp.as_slice());
            }
            proof {
                assert(line@ =~= entry_line(*e, skills_db@[k as int].name@));
            }
            let ghost old_lines = lines;
            if text.len() > 0 {
                text.push('\n');
            }
            extend_chars(&mut text, line.as_slice());
            proof {
                lines = old_lines.push(line@);
                assert(lines.drop_last() =~= old_lines);
                if old_lines.len() == 0 {
                    assert(text@ =~= line@);
                } else {
                    assert(text@ =~= join_lines(old_lines) + seq!['\n'] + line@);
                }
            }
        }
        i = i + 1;
    }
    proof {
        assert(order@.take(n as int) =~= order@);
    }
    Ok(string_from(text.as_slice()))
}

proof fn lemma_lines_err_extends(
    qs: Seq<EsSkillQueueEntry>,
    order: Seq<usize>,
    db: Seq<SkillInfo>,
    k: int,
    id: i32,
)
    requires
        0 <= k <= order.len(),
        queue_lines_for(qs, order.take(k), db) == Err::<Seq<Seq<char>>, i32>(id),
    ensures
        queue_lines_for(qs, order, db) == Err::<Seq<Seq<char>>, i32>(id),
    decreases order.len() - k,
{
    if k < order.len() {
        assert(order.take(k + 1).drop_last() =~= order.take(k));
        lemma_lines_err_extends(qs, order, db, k + 1, id);
    } else {
        assert(order.take(k) =~= order);
    }
}


// ---------------------------------------------------------------------------
// Reading the lines back
// ---------------------------------------------------------------------------

/// A skill name that a queue line carries intact: not empty, starting with
/// neither whitespace nor `#`, and without `@`.
pub open spec fn line_safe_name(n: Seq<char>) -> bool {
    &&& n.len() > 0
    &&& !is_ws(n[0])
    &&& n[0] != '#'
    &&& forall|i: int| 0 <= i < n.len() ==> #[trigger] n[i] != '@'
}

proof fn lemma_digit_not_ws(c: char)
    requires
        is_digit(c),
    ensures
        !is_ws(c),
        c != '@',
        c != '#',
        ascii_lower(c) != 'p',
        c != 'd' && c != 'h' && c != 'm' && c != 's',
{
}

/// A text whose first and last characters are not whitespace is its own trim.
proof fn lemma_trim_fixed(t: Seq<char>)
    requires
        t.len() > 0,
        !is_ws(t[0]),
        !is_ws(t.last()),
    ensures
        trim(t) == t,
{
    assert(lead_ws(t) == 0);
    assert(trail_ws(t) == 0);
    assert(t.subrange(0, t.len() as int) =~= t);
}

proof fn lemma_last_index_at(s: Seq<char>, c: char, p: int)
    requires
        -1 <= p < s.len(),
        p >= 0 ==> s[p] == c,
        forall|q: int| p < q < s.len() ==> #[trigger] s[q] != c,
    ensures
        last_index(s, c) == p,
    decreases s.len(),
{
    if s.len() > 0 && p < s.len() - 1 {
        let t = s.drop_last();
        assert forall|q: int| p < q < t.len() implies #[trigger] t[q] != c by {
            assert(t[q] == s[q]);
        }
        lemma_last_index_at(t, c, p);
    }
}

proof fn lemma_last_ws_at(s: Seq<char>, p: int)
    requires
        0 <= p < s.len(),
        is_ws(s[p]),
        forall|q: int| p < q < s.len() ==> !is_ws(#[trigger] s[q]),
    ensures
        last_ws(s) == p,
    decreases s.len(),
{
    if p < s.len() - 1 {
        let t = s.drop_last();
        assert forall|q: int| p < q < t.len() implies !is_ws(#[trigger] t[q]) by {
            assert(t[q] == s[q]);
        }
        lemma_last_ws_at(t, p);
    }
}

/// The first record whose name matches a name that some record has.
proof fn lemma_skill_position_found(db: Seq<SkillInfo>, name: Seq<char>, k: int)
    requires
        0 <= k < db.len(),
        eq_ignore_ascii_case(db[k].name@, name),
    ensures
        0 <= skill_position(db, name) <= k,
        eq_ignore_ascii_case(db[skill_position(db, name)].name@, name),
    decreases db.len(),
{
    if !eq_ignore_ascii_case(db[0].name@, name) {
        let t = db.drop_first();
        assert(t[k - 1] == db[k]);
        lemma_skill_position_found(t, name, k - 1);
        assert(db[skill_position(db, name)] == t[skill_position(t, name)]);
    }
}

proof fn lemma_signed_decimal_shape(x: int)
    ensures
        signed_decimal(x).len() > 0,
        !is_ws(signed_decimal(x)[0]),
        is_digit(signed_decimal(x).last()),
        forall|i: int| 0 <= i < signed_decimal(x).len() ==> #[trigger] signed_decimal(x)[i] != '@',
{
    if x < 0 {
        let d = decimal((-x) as nat);
        lemma_decimal((-x) as nat);
        let t = seq!['-'] + d;
        assert(t.last() == d.last());
        assert(is_digit(d[d.len() - 1]));
        assert forall|i: int| 0 <= i < t.len() implies #[trigger] t[i] != '@' by {
            if i > 0 {
                assert(t[i] == d[i - 1]);
                assert(is_digit(d[i - 1]));
            }
        }
    } else {
        let d = decimal(x as nat);
        lemma_decimal(x as nat);
        assert(is_digit(d[0]));
        assert(is_digit(d[d.len() - 1]));
        assert forall|i: int| 0 <= i < d.len() implies #[trigger] d[i] != '@' by {
            assert(is_digit(d[i]));
        }
    }
}

/// Law: the line written for a queue entry reads back, through the queue
/// file's line reader, as an entry of the same target level and the same
/// progress (the skill points trained, when training has started), naming the
/// first record whose name matches the written one ignoring ASCII case (the
/// record itself when no earlier record has such a name).
pub proof fn lemma_entry_line_reads_back(
    e: EsSkillQueueEntry,
    db: Seq<SkillInfo>,
    k: int,
    o: LineOutcome,
)
    requires
        0 <= k < db.len(),
        line_safe_name(db[k].name@),
        1 <= low_byte(e.finished_level) <= 5,
        outcome_matches(o, entry_line(e, db[k].name@), db),
    ensures
        o matches LineOutcome::Entry(q) && {
            &&& q.level == low_byte(e.finished_level)
            &&& q.skill_index == skill_position(db, db[k].name@)
            &&& 0 <= q.skill_index <= k
            &&& eq_ignore_ascii_case(db[q.skill_index as int].name@, db[k].name@)
            &&& if e.training_start_sp > e.level_start_sp {
                q.progress matches QueueProgress::SpTrained(x) && x@ == signed_decimal(
                    e.training_start_sp as int,
                )
            } else {
                q.progress is Full
            }
        },
{
    let name = db[k].name@;
    let lvl = low_byte(e.finished_level);
    let dl = decimal(lvl as nat);
    assert(dl =~= seq![((lvl as nat) + '0' as nat) as char]);
    let dc = dl[0];
    assert(is_digit(dc));
    lemma_digit_not_ws(dc);
    let head = name + seq![' '] + dl;
    let line = entry_line(e, name);
    assert(head[0] == name[0]);
    assert(head.last() == dc);
    assert(is_ws(' '));
    let hw = name.len() as int;
    assert(head[hw] == ' ');
    // The level and the name read back from `head`.
    assert(all_digits(dl));
    assert(digits_value(dl.drop_last()) == 0);
    assert(dl.drop_last() =~= Seq::<char>::empty());
    assert(digits_value(dl) == lvl);
    assert(parse_unsigned(dl, u8::MAX as nat) == Some(lvl as nat));
    lemma_trim_fixed(head);
    assert forall|q: int| hw < q < head.len() implies !is_ws(#[trigger] head[q]) by {
        assert(q == hw + 1);
    }
    lemma_last_ws_at(head, hw);
    assert(head.skip(hw + 1) =~= dl);
    assert(head.take(hw) =~= name);
    assert(eq_ignore_ascii_case(name, name));
    lemma_skill_position_found(db, name, k);
    assert forall|q: int| 0 <= q < head.len() implies #[trigger] head[q] != '@' by {
        if q < hw {
            assert(head[q] == name[q]);
        }
    }
    if e.training_start_sp > e.level_start_sp {
        let sd = signed_decimal(e.training_start_sp as int);
        lemma_signed_decimal_shape(e.training_start_sp as int);
        lemma_digit_not_ws(sd.last());
        assert(line == head + seq!['@'] + sd);
        let at = head.len() as int;
        assert(line[0] == head[0]);
        assert(line.last() == sd.last());
        lemma_trim_fixed(line);
        assert(line[at] == '@');
        assert forall|q: int| at < q < line.len() implies #[trigger] line[q] != '@' by {
            assert(line[q] == sd[q - at - 1]);
        }
        lemma_last_index_at(line, '@', at);
        assert(line.take(at) =~= head);
        assert(line.skip(at + 1) =~= sd);
        lemma_trim_fixed(sd);
        assert(sd.len() > 0 && !(sd.last() == 'd' || sd.last() == 'h' || sd.last() == 'm' || sd.last() == 's'));
        assert(sp_number(sd) == sd);
    } else {
        assert(line == head);
        lemma_last_index_at(line, '@', -1);
    }
}

} // verus!
