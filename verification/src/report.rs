//! Texts of the plan report: skill-point totals with thousands separators and
//! the compact attribute line.
use vstd::prelude::*;
use crate::attributes::EffectiveAttributes;
use crate::text::{decimal, extend_chars, i128_to_chars, signed_decimal, string_from, u64_to_chars};

verus! {

/// Digits grouped in threes from the right with `,`.
pub open spec fn grouped(s: Seq<char>) -> Seq<char>
    decreases s.len(),
{
    if s.len() <= 3 {
        s
    } else {
        grouped(s.take(s.len() - 3)) + seq![','] + s.skip(s.len() - 3)
    }
}

fn group_chars(s: &[char]) -> (r: Vec<char>)
    ensures
        r@ == grouped(s@),
    decreases s@.len(),
{
    let n = s.len();
    if n <= 3 {
        let mut r: Vec<char> = Vec::new();
        extend_chars(&mut r, s);
        proof {
            assert(r@ =~= s@);
        }
        r
    } else {
        let head = crate::text::slice_range(s, 0, n - 3);
        let tail = crate::text::slice_range(s, n - 3, n);
        let mut r = group_chars(head.as_slice());
        r.push(',');
        extend_chars(&mut r, tail.as_slice());
        proof {
            assert(head@ =~= s@.take(n - 3));
            assert(tail@ =~= s@.skip(n - 3));
        }
        r
    }
}

/// A whole number with comma thousands separators, such as `217,300`.
pub fn format_number(n: u64) -> (r: String)
    ensures
        r@ == grouped(decimal(n as nat)),
{
    let d = u64_to_chars(n);
    let g = group_chars(d.as_slice());
    string_from(g.as_slice())
}

/// The compact attribute line `P<per>/M<mem>/W<wil>/I<int>/C<cha>`.
pub open spec fn attrs_line(e: EffectiveAttributes) -> Seq<char> {
    seq!['P'] + signed_decimal(e.perception as int) + seq!['/', 'M'] + signed_decimal(
        e.memory as int,
    ) + seq!['/', 'W'] + signed_decimal(e.willpower as int) + seq!['/', 'I'] + signed_decimal(
        e.intelligence as int,
    ) + seq!['/', 'C'] + signed_decimal(e.charisma as int)
}

fn push_value(v: &mut Vec<char>, sep: char, tag: char, x: i128)
    ensures
        final(v)@ == old(v)@ + seq![sep, tag] + signed_decimal(x as int),
{
    v.push(sep);
    v.push(tag);
    let d = i128_to_chars(x);
    extend_chars(v, d.as_slice());
    proof {
        assert(final(v)@ =~= old(v)@ + seq![sep, tag] + signed_decimal(x as int));
    }
}

/// Effective attributes as a compact line, such as `P27/M21/W17/I17/C17`.
pub fn format_attrs(eff: &EffectiveAttributes) -> (r: String)
    ensures
        r@ == attrs_line(*eff),
{
    let mut v: Vec<char> = Vec::new();
    v.push('P');
    let d = i128_to_chars(eff.perception);
    extend_chars(&mut v, d.as_slice());
    push_value(&mut v, '/', 'M', eff.memory);
    push_value(&mut v, '/', 'W', eff.willpower);
    push_value(&mut v, '/', 'I', eff.intelligence);
    push_value(&mut v, '/', 'C', eff.charisma);
    proof {
        assert(v@ =~= attrs_line(*eff));
    }
    string_from(v.as_slice())
}


/// The first line of a written queue file.
pub open spec fn queue_file_header() -> Seq<char> {
    "# Optimized by eve-remap — skill order reordered for attribute locality"@
}

/// The lines after the header: `<name> <level>` for each skill.
pub open spec fn queue_file_body(skills: Seq<(Seq<char>, u8)>) -> Seq<char>
    decreases skills.len(),
{
    if skills.len() == 0 {
        Seq::empty()
    } else {
        queue_file_body(skills.drop_last()) + skills.last().0 + seq![' '] + decimal(
            skills.last().1 as nat,
        ) + seq!['\n']
    }
}

pub open spec fn named_levels(v: Seq<(String, u8)>) -> Seq<(Seq<char>, u8)> {
    v.map_values(|p: (String, u8)| (p.0@, p.1))
}

/// The text of a queue file listing skills in training order, each line
/// ending in a newline, after a header comment.
pub fn queue_file_text(skills: &[(String, u8)]) -> (r: String)
    ensures
        r@ == queue_file_header() + seq!['\n'] + queue_file_body(named_levels(skills@)),
{
    let mut v: Vec<char> = Vec::new();
    crate::text::extend_str(&mut v, "# Optimized by eve-remap — skill order reordered for attribute locality");
    v.push('\n');
    let n = skills.len();
    let mut i: usize = 0;
    while i < n
        invariant
            i <= n == skills@.len(),
            v@ == queue_file_header() + seq!['\n'] + queue_file_body(
                named_levels(skills@.take(i as int)),
            ),
        decreases n - i,
    {
        proof {
            assert(named_levels(skills@.take(i + 1)).drop_last() =~= named_levels(
                skills@.take(i as int),
            ));
        }
        crate::text::extend_str(&mut v, skills[i].0.as_str());
        v.push(' ');
        let d = u64_to_chars(skills[i].1 as u64);
        extend_chars(&mut v, d.as_slice());
        v.push('\n');
        proof {
            let nl = named_levels(skills@.take(i + 1));
            assert(nl.last() == (skills@[i as int].0@, skills@[i as int].1));
            assert(v@ =~= queue_file_header() + seq!['\n'] + queue_file_body(nl));
        }
        i = i + 1;
    }
    proof {
        assert(skills@.take(n as int) =~= skills@);
    }
    string_from(v.as_slice())
}

} // verus!
