//! Reading a skill-queue file. Each line that is not blank or a `#` comment
//! names a skill and a target level, `Skill Name <level>`, optionally followed
//! by `@` and progress: time left (`@3d12h`, `@7d`) or skill points trained
//! (`@12000`, `@12345 SP`). Whitespace around the `@` is allowed. Skill names
//! match the static data ignoring ASCII case.
use vstd::prelude::*;
use crate::date::{last_index, last_index_exec};
use crate::reorder::SkillInfo;
use crate::text::{
    chars_of, is_whitespace, is_ws, parse_u8_chars, parse_unsigned, slice_range, split,
    split_chars, string_from, trim, trim_chars,
};

verus! {

/// What follows the `@` of a queue line.
#[derive(Debug, Clone, PartialEq, Eq)]
pub enum QueueProgress {
    /// No `@`: the whole level is still to train.
    Full,
    /// Progress ending in `d`, `h`, `m` or `s`: the time left.
    TimeLeft(String),
    /// Any other progress: the skill points trained so far, without a
    /// trailing `SP` unit.
    SpTrained(String),
}

/// A queue line naming a skill of the data and a level to train.
#[derive(Debug, Clone)]
pub struct QueueLine {
    /// Index of the skill's record in the static data.
    pub skill_index: usize,
    /// Target level, 1 to 5.
    pub level: u8,
    pub progress: QueueProgress,
}

/// Why a queue line was refused.
#[derive(Debug, Clone, PartialEq, Eq)]
pub enum LineError {
    /// No whitespace separates a name from a level in this text.
    MissingLevel(String),
    /// This level text is not a number from 0 to 255.
    InvalidLevel(String),
    /// This level is not between 1 and 5.
    LevelOutOfRange(u8),
    /// No skill of the data has this name.
    UnknownSkill(String),
}

/// What a queue line says.
#[derive(Debug, Clone)]
pub enum LineOutcome {
    /// A blank line or a comment.
    Blank,
    Entry(QueueLine),
    Invalid(LineError),
}

// ---------------------------------------------------------------------------
// Specification
// ---------------------------------------------------------------------------

/// `str::lines`: the pieces between `\n`, with no final empty piece, and each
/// piece that a `\n` ends without one trailing `\r`.
pub open spec fn text_lines(s: Seq<char>) -> Seq<Seq<char>> {
    let ps = split(s, '\n');
    let body = ps.drop_last().map_values(|l: Seq<char>| strip_cr(l));
    if ps.last().len() == 0 {
        body
    } else {
        body.push(ps.last())
    }
}

pub open spec fn strip_cr(l: Seq<char>) -> Seq<char> {
    if l.len() > 0 && l.last() == '\r' {
        l.drop_last()
    } else {
        l
    }
}

/// Index of the last whitespace character, or -1.
pub open spec fn last_ws(s: Seq<char>) -> int
    decreases s.len(),
{
    if s.len() == 0 {
        -1
    } else if is_ws(s.last()) {
        s.len() - 1
    } else {
        last_ws(s.drop_last())
    }
}

/// `char::to_ascii_lowercase`.
pub open spec fn ascii_lower(c: char) -> char {
    if 'A' <= c && c <= 'Z' {
        ((c as u32) + 32) as char
    } else {
        c
    }
}

/// `str::eq_ignore_ascii_case`.
pub open spec fn eq_ignore_ascii_case(a: Seq<char>, b: Seq<char>) -> bool {
    &&& a.len() == b.len()
    &&& forall|i: int| 0 <= i < a.len() ==> ascii_lower(#[trigger] a[i]) == ascii_lower(b[i])
}

/// Index of the first record whose name matches, ignoring ASCII case, or -1.
pub open spec fn skill_position(db: Seq<SkillInfo>, name: Seq<char>) -> int
    decreases db.len(),
{
    if db.len() == 0 {
        -1
    } else if eq_ignore_ascii_case(db[0].name@, name) {
        0
    } else {
        let r = skill_position(db.drop_first(), name);
        if r < 0 {
            -1
        } else {
            r + 1
        }
    }
}

/// Skill-point progress text with an optional trailing `SP` unit (in any
/// ASCII case) and the whitespace before it removed.
pub open spec fn sp_number(i: Seq<char>) -> Seq<char> {
    if i.len() >= 2 && ascii_lower(i[i.len() - 2]) == 's' && ascii_lower(i[i.len() - 1]) == 'p' {
        trim(i.take(i.len() - 2))
    } else {
        i
    }
}

pub open spec fn progress_matches(p: QueueProgress, info: Option<Seq<char>>) -> bool {
    match info {
        None => p is Full,
        Some(i) => if i.len() > 0 && (i.last() == 'd' || i.last() == 'h' || i.last() == 'm'
            || i.last() == 's') {
            p matches QueueProgress::TimeLeft(x) && x@ == i
        } else {
            p matches QueueProgress::SpTrained(x) && x@ == sp_number(i)
        },
    }
}

/// What a queue line says: blank, an entry, or the first fault found.
pub open spec fn outcome_matches(o: LineOutcome, line: Seq<char>, db: Seq<SkillInfo>) -> bool {
    let t = trim(line);
    if t.len() == 0 || t[0] == '#' {
        o is Blank
    } else {
        let at = last_index(t, '@');
        let part = trim(
            if at >= 0 {
                t.take(at)
            } else {
                t
            },
        );
        let info = if at >= 0 {
            Some(trim(t.skip(at + 1)))
        } else {
            None
        };
        let w = last_ws(part);
        if w < 0 {
            o matches LineOutcome::Invalid(LineError::MissingLevel(x)) && x@ == part
        } else {
            let lv = part.skip(w + 1);
            let name = part.take(w);
            match parse_unsigned(lv, u8::MAX as nat) {
                None => o matches LineOutcome::Invalid(LineError::InvalidLevel(x)) && x@ == lv,
                Some(level) => if !(1 <= level <= 5) {
                    o matches LineOutcome::Invalid(LineError::LevelOutOfRange(x)) && x == level
                } else {
                    let k = skill_position(db, name);
                    if k < 0 {
                        o matches LineOutcome::Invalid(LineError::UnknownSkill(x)) && x@ == name
                    } else {
                        o matches LineOutcome::Entry(q) && q.skill_index == k && q.level == level
                            && progress_matches(q.progress, info)
                    }
                },
            }
        }
    }
}

// ---------------------------------------------------------------------------
// Pieces
// ---------------------------------------------------------------------------

fn last_ws_exec(s: &[char]) -> (r: Option<usize>)
    ensures
        match r {
            Some(i) => last_ws(s@) == i as int && i < s@.len(),
            None => last_ws(s@) == -1,
        },
{
    let mut i: usize = s.len();
    proof {
        assert(s@.take(s@.len() as int) =~= s@);
    }
    while i > 0
        invariant
            i <= s@.len(),
            last_ws(s@) == last_ws(s@.take(i as int)),
        decreases i,
    {
        proof {
            assert(s@.take(i as int).drop_last() =~= s@.take(i as int - 1));
        }
        if is_whitespace(s[i - 1]) {
            return Some(i - 1);
        }
        i = i - 1;
    }
    None
}

fn ascii_lower_exec(c: char) -> (r: char)
    ensures
        r == ascii_lower(c),
{
    if 'A' <= c && c <= 'Z' {
        let u = (c as u32) + 32;
        // A lower-case ASCII letter.
        if u == 97 { 'a' } else if u == 98 { 'b' } else if u == 99 { 'c' } else if u == 100 { 'd' }
        else if u == 101 { 'e' } else if u == 102 { 'f' } else if u == 103 { 'g' } else if u == 104 { 'h' }
        else if u == 105 { 'i' } else if u == 106 { 'j' } else if u == 107 { 'k' } else if u == 108 { 'l' }
        else if u == 109 { 'm' } else if u == 110 { 'n' } else if u == 111 { 'o' } else if u == 112 { 'p' }
        else if u == 113 { 'q' } else if u == 114 { 'r' } else if u == 115 { 's' } else if u == 116 { 't' }
        else if u == 117 { 'u' } else if u == 118 { 'v' } else if u == 119 { 'w' } else if u == 120 { 'x' }
        else if u == 121 { 'y' } else { 'z' }
    } else {
        c
    }
}

fn eq_ignore_case_exec(a: &[char], b: &[char]) -> (r: bool)
    ensures
        r == eq_ignore_ascii_case(a@, b@),
{
    if a.len() != b.len() {
        return false;
    }
    let n = a.len();
    let mut i: usize = 0;
    while i < n
        invariant
            i <= n == a@.len() == b@.len(),
            forall|k: int| 0 <= k < i ==> ascii_lower(#[trigger] a@[k]) == ascii_lower(b@[k]),
        decreases n - i,
    {
        if ascii_lower_exec(a[i]) != ascii_lower_exec(b[i]) {
            return false;
        }
        i = i + 1;
    }
    true
}

proof fn lemma_skill_position(db: Seq<SkillInfo>, name: Seq<char>, k: int)
    requires
        -1 <= k < db.len(),
        k >= 0 ==> eq_ignore_ascii_case(db[k].name@, name),
        forall|j: int|
            0 <= j < db.len() && (k < 0 || j < k) ==> !eq_ignore_ascii_case(
                #[trigger] db[j].name@,
                name,
            ),
    ensures
        skill_position(db, name) == k,
    decreases db.len(),
{
    if db.len() > 0 && !eq_ignore_ascii_case(db[0].name@, name) {
        let t = db.drop_first();
        assert forall|j: int| 0 <= j < t.len() && (k - 1 < 0 || j < k - 1) implies !eq_ignore_ascii_case(
            #[trigger] t[j].name@,
            name,
        ) by {
            assert(t[j] == db[j + 1]);
        }
        if k > 0 {
            lemma_skill_position(t, name, k - 1);
        } else {
            lemma_skill_position(t, name, -1);
        }
    }
}

/// The first record of the data with this name, ignoring ASCII case.
fn find_skill(db: &[SkillInfo], name: &[char]) -> (r: Option<usize>)
    ensures
        match r {
            Some(k) => skill_position(db@, name@) == k as int,
            None => skill_position(db@, name@) == -1,
        },
{
    let n = db.len();
    let mut i: usize = 0;
    while i < n
        invariant
            i <= n == db@.len(),
            forall|j: int|
                0 <= j < i ==> !eq_ignore_ascii_case(#[trigger] db@[j].name@, name@),
        decreases n - i,
    {
        let nm = chars_of(db[i].name.as_str());
        if eq_ignore_case_exec(nm.as_slice(), name) {
            proof {
                lemma_skill_position(db@, name@, i as int);
            }
            return Some(i);
        }
        i = i + 1;
    }
    proof {
        lemma_skill_position(db@, name@, -1);
    }
    None
}

fn line_outcome(line: &[char], skills_db: &[SkillInfo]) -> (o: LineOutcome)
    ensures
        outcome_matches(o, line@, skills_db@),
{
    let t = trim_chars(line);
    let n = t.len();
    if n == 0 || t[0] == '#' {
        return LineOutcome::Blank;
    }
    let at = last_index_exec(t.as_slice(), '@');
    let before = match at {
        Some(a) => {
            proof {
                crate::date::lemma_last_index_range(t@, '@');
            }
            slice_range(t.as_slice(), 0, a)
        },
        None => slice_range(t.as_slice(), 0, n),
    };
    proof {
        match at {
            Some(a) => {
                assert(before@ =~= t@.take(a as int));
            },
            None => {
                assert(before@ =~= t@);
            },
        }
    }
    let part = trim_chars(before.as_slice());
    let plen = part.len();
    let ws = last_ws_exec(part.as_slice());
    let w = match ws {
        Some(w) => {
            assert(w < part@.len());
            w
        },
        None => {
            return LineOutcome::Invalid(LineError::MissingLevel(string_from(part.as_slice())));
        },
    };
    let lv = slice_range(part.as_slice(), w + 1, plen);
    let name = slice_range(part.as_slice(), 0, w);
    proof {
        assert(lv@ =~= part@.skip(w + 1));
        assert(name@ =~= part@.take(w as int));
    }
    let level = match parse_u8_chars(lv.as_slice()) {
        Some(v) => v,
        None => {
            return LineOutcome::Invalid(LineError::InvalidLevel(string_from(lv.as_slice())));
        },
    };
    if level < 1 || level > 5 {
        return LineOutcome::Invalid(LineError::LevelOutOfRange(level));
    }
    let k = match find_skill(skills_db, name.as_slice()) {
        Some(k) => k,
        None => {
            return LineOutcome::Invalid(LineError::UnknownSkill(string_from(name.as_slice())));
        },
    };
    let progress = match at {
        None => QueueProgress::Full,
        Some(a) => {
            let rest = slice_range(t.as_slice(), a + 1, n);
            proof {
                assert(rest@ =~= t@.skip(a + 1));
            }
            let info = trim_chars(rest.as_slice());
            let m = info.len();
            if m > 0 && (info[m - 1] == 'd' || info[m - 1] == 'h' || info[m - 1] == 'm' || info[m
                - 1] == 's') {
                QueueProgress::TimeLeft(string_from(info.as_slice()))
            } else if m >= 2 && ascii_lower_exec(info[m - 2]) == 's' && ascii_lower_exec(info[m - 1])
                == 'p' {
                let num = slice_range(info.as_slice(), 0, m - 2);
                proof {
                    assert(num@ =~= info@.take(m - 2));
                }
                let num = trim_chars(num.as_slice());
                QueueProgress::SpTrained(string_from(num.as_slice()))
            } else {
                QueueProgress::SpTrained(string_from(info.as_slice()))
            }
        },
    };
    LineOutcome::Entry(QueueLine { skill_index: k, level, progress })
}

/// What one line of a queue file says.
pub fn parse_queue_line(line: &str, skills_db: &[SkillInfo]) -> (o: LineOutcome)
    ensures
        outcome_matches(o, line@, skills_db@),
{
    let c = chars_of(line);
    line_outcome(c.as_slice(), skills_db)
}

/// What each line of a queue file says, in line order (line `i + 1` at index
/// `i`).
pub fn parse_queue_lines(content: &str, skills_db: &[SkillInfo]) -> (r: Vec<LineOutcome>)
    ensures
        r@.len() == text_lines(content@).len(),
        forall|i: int|
            0 <= i < r@.len() ==> outcome_matches(#[trigger] r@[i], text_lines(content@)[i], skills_db@),
{
    let c = chars_of(content);
    let pieces = split_chars(c.as_slice(), '\n');
    proof {
        crate::text::lemma_split_nonempty(content@, '\n');
    }
    let np = pieces.len();
    let ghost ps = split(content@, '\n');
    let ghost lines = text_lines(content@);
    let count = if pieces[np - 1].len() == 0 {
        np - 1
    } else {
        np
    };
    let mut out: Vec<LineOutcome> = Vec::new();
    let mut i: usize = 0;
    while i < count
        invariant
            np == ps.len() >= 1,
            pieces@.len() == np,
            forall|k: int| 0 <= k < np ==> #[trigger] pieces@[k]@ == ps[k],
            lines == text_lines(content@),
            ps == split(content@, '\n'),
            count == lines.len(),
            count <= np,
            i <= count,
            out@.len() == i,
            forall|k: int| 0 <= k < i ==> outcome_matches(#[trigger] out@[k], lines[k], skills_db@),
        decreases count - i,
    {
        let piece = &pieces[i];
        let o = if i + 1 < np {
            let m = piece.len();
            if m > 0 && piece[m - 1] == '\r' {
                let l = slice_range(piece.as_slice(), 0, m - 1);
                proof {
                    assert(l@ =~= strip_cr(ps[i as int]));
                }
                line_outcome(l.as_slice(), skills_db)
            } else {
                line_outcome(piece.as_slice(), skills_db)
            }
        } else {
            line_outcome(piece.as_slice(), skills_db)
        };
        proof {
            if i + 1 < np {
                assert(lines[i as int] == strip_cr(ps[i as int]));
            } else {
                assert(lines[i as int] == ps[i as int]);
            }
        }
        out.push(o);
        i = i + 1;
    }
    out
}

} // verus!
