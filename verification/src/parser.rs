//! Parsers for the `PER:MEM:WIL:INT:CHA` attribute strings given on the command line.
use vstd::prelude::*;
use crate::attributes::BaseAttributes;
use crate::text::{
    chars_of, extend_chars, extend_str, parse_u32_chars, parse_unsigned, split, split_chars,
    string_from, trim, trim_chars, u64_to_chars, decimal,
};

verus! {

/// Why a `PER:MEM:WIL:INT:CHA` string was rejected.
#[derive(Debug, PartialEq, Eq)]
pub enum AttrListError {
    /// A piece (shown untrimmed) is not a non-negative integer.
    InvalidValue(String),
    /// The string does not hold exactly five values; holds how many it held.
    WrongCount(usize),
    /// The value at this position (0 = PER .. 4 = CHA) is outside the allowed range.
    OutOfRange(usize, u32),
}

/// Index of the first piece whose trimmed text is not a `u32`, or -1.
pub open spec fn first_unparsable(ps: Seq<Seq<char>>) -> int
    decreases ps.len(),
{
    if ps.len() == 0 {
        -1
    } else if parse_unsigned(trim(ps[0]), u32::MAX as nat) is None {
        0
    } else {
        let r = first_unparsable(ps.drop_first());
        if r < 0 {
            -1
        } else {
            r + 1
        }
    }
}

/// Index of the first value outside `lo..=hi`, or -1.
pub open spec fn first_out_of_range(vs: Seq<u32>, lo: u32, hi: u32) -> int
    decreases vs.len(),
{
    if vs.len() == 0 {
        -1
    } else if !(lo <= vs[0] <= hi) {
        0
    } else {
        let r = first_out_of_range(vs.drop_first(), lo, hi);
        if r < 0 {
            -1
        } else {
            r + 1
        }
    }
}

/// The `PER:MEM:WIL:INT:CHA` values in a set, in that order.
pub open spec fn per_mem_wil_int_cha(b: BaseAttributes) -> Seq<u32> {
    seq![b.perception, b.memory, b.willpower, b.intelligence, b.charisma]
}

/// The values of pieces that all parse.
pub open spec fn piece_values(ps: Seq<Seq<char>>) -> Seq<nat> {
    ps.map_values(|p: Seq<char>| parse_unsigned(trim(p), u32::MAX as nat)->0)
}

/// What parsing `input` as five `:`-separated values in `lo..=hi` owes: the first
/// piece that is not an integer, else a count other than five, else the first
/// value out of range, else the values as PER, MEM, WIL, INT, CHA.
pub open spec fn five_values_result(
    input: Seq<char>,
    lo: u32,
    hi: u32,
    r: Result<BaseAttributes, AttrListError>,
) -> bool {
    let ps = split(input, ':');
    let bad = first_unparsable(ps);
    if bad >= 0 {
        r matches Err(AttrListError::InvalidValue(s)) && s@ == ps[bad]
    } else {
        let vs = piece_values(ps);
        if vs.len() != 5 {
            r == Err::<BaseAttributes, AttrListError>(AttrListError::WrongCount(vs.len() as usize))
        } else {
            match r {
                Ok(b) => first_out_of_range(per_mem_wil_int_cha(b), lo, hi) == -1
                    && forall|k: int| 0 <= k < 5 ==> per_mem_wil_int_cha(b)[k] == vs[k],
                Err(AttrListError::OutOfRange(k, v)) => {
                    &&& k < 5
                    &&& v == vs[k as int]
                    &&& forall|j: int| 0 <= j < k ==> lo <= #[trigger] vs[j] <= hi
                    &&& !(lo <= v <= hi)
                },
                _ => false,
            }
        }
    }
}

proof fn lemma_first_unparsable(ps: Seq<Seq<char>>)
    ensures
        -1 <= first_unparsable(ps) < ps.len(),
        first_unparsable(ps) >= 0 ==> parse_unsigned(trim(ps[first_unparsable(ps)]), u32::MAX as nat) is None,
        forall|j: int|
            0 <= j < ps.len() && (first_unparsable(ps) < 0 || j < first_unparsable(ps))
                ==> parse_unsigned(trim(#[trigger] ps[j]), u32::MAX as nat) is Some,
    decreases ps.len(),
{
    if ps.len() > 0 && parse_unsigned(trim(ps[0]), u32::MAX as nat) is Some {
        lemma_first_unparsable(ps.drop_first());
        let r = first_unparsable(ps);
        assert forall|j: int|
            0 <= j < ps.len() && (r < 0 || j < r) implies parse_unsigned(
            trim(#[trigger] ps[j]),
            u32::MAX as nat,
        ) is Some by {
            if j > 0 {
                assert(ps[j] == ps.drop_first()[j - 1]);
            }
        }
    }
}

proof fn lemma_first_unparsable_char(ps: Seq<Seq<char>>, k: int)
    requires
        -1 <= k < ps.len(),
        k >= 0 ==> parse_unsigned(trim(ps[k]), u32::MAX as nat) is None,
        forall|j: int|
            0 <= j < ps.len() && (k < 0 || j < k) ==> parse_unsigned(
                trim(#[trigger] ps[j]),
                u32::MAX as nat,
            ) is Some,
    ensures
        first_unparsable(ps) == k,
    decreases ps.len(),
{
    if ps.len() > 0 && parse_unsigned(trim(ps[0]), u32::MAX as nat) is Some {
        let t = ps.drop_first();
        assert forall|j: int| 0 <= j < t.len() && (k - 1 < 0 || j < k - 1) implies parse_unsigned(
            trim(#[trigger] t[j]),
            u32::MAX as nat,
        ) is Some by {
            assert(t[j] == ps[j + 1]);
        }
        if k > 0 {
            lemma_first_unparsable_char(t, k - 1);
        } else {
            lemma_first_unparsable_char(t, -1);
        }
    }
}

/// The set that parsing `input` as five values within `lo..=hi` yields, if it succeeds.
pub open spec fn five_values_ok(input: Seq<char>, lo: u32, hi: u32) -> Option<BaseAttributes> {
    let ps = split(input, ':');
    let vs = piece_values(ps);
    if first_unparsable(ps) >= 0 || vs.len() != 5 || exists|k: int|
        0 <= k < 5 && !(lo <= #[trigger] vs[k] <= hi) {
        None
    } else {
        Some(
            BaseAttributes {
                perception: vs[0] as u32,
                memory: vs[1] as u32,
                willpower: vs[2] as u32,
                intelligence: vs[3] as u32,
                charisma: vs[4] as u32,
            },
        )
    }
}

proof fn lemma_first_out_of_range(vs: Seq<u32>, lo: u32, hi: u32)
    ensures
        first_out_of_range(vs, lo, hi) == -1 ==> forall|j: int|
            0 <= j < vs.len() ==> lo <= #[trigger] vs[j] <= hi,
    decreases vs.len(),
{
    if vs.len() > 0 && lo <= vs[0] <= hi {
        lemma_first_out_of_range(vs.drop_first(), lo, hi);
        assert forall|j: int| 0 <= j < vs.len() && first_out_of_range(vs, lo, hi) == -1 implies lo
            <= #[trigger] vs[j] <= hi by {
            if j > 0 {
                assert(vs[j] == vs.drop_first()[j - 1]);
            }
        }
    }
}

/// A result described by `five_values_result` succeeds exactly when
/// `five_values_ok` gives a set, and then with that set.
pub proof fn lemma_five_values_ok(
    input: Seq<char>,
    lo: u32,
    hi: u32,
    r: Result<BaseAttributes, AttrListError>,
)
    requires
        five_values_result(input, lo, hi, r),
    ensures
        match r {
            Ok(b) => five_values_ok(input, lo, hi) == Some(b),
            Err(_) => five_values_ok(input, lo, hi) is None,
        },
{
    let ps = split(input, ':');
    let vs = piece_values(ps);
    match r {
        Ok(b) => {
            lemma_first_out_of_range(per_mem_wil_int_cha(b), lo, hi);
            assert forall|k: int| 0 <= k < 5 implies lo <= #[trigger] vs[k] <= hi by {
                assert(per_mem_wil_int_cha(b)[k] == vs[k]);
            }
            assert(per_mem_wil_int_cha(b)[0] == vs[0]);
            assert(per_mem_wil_int_cha(b)[1] == vs[1]);
            assert(per_mem_wil_int_cha(b)[2] == vs[2]);
            assert(per_mem_wil_int_cha(b)[3] == vs[3]);
            assert(per_mem_wil_int_cha(b)[4] == vs[4]);
        },
        Err(_) => {},
    }
}

/// Parse five `:`-separated values within `lo..=hi`.
fn parse_five(input: &str, lo: u32, hi: u32) -> (r: Result<BaseAttributes, AttrListError>)
    ensures
        five_values_result(input@, lo, hi, r),
{
    let raw = chars_of(input);
    let pieces = split_chars(raw.as_slice(), ':');
    let ghost ps = split(input@, ':');
    let mut vals: Vec<u32> = Vec::new();
    let n = pieces.len();
    let mut i: usize = 0;
    while i < n
        invariant
            i <= n == pieces@.len() == ps.len(),
            ps == split(input@, ':'),
            forall|k: int| 0 <= k < pieces@.len() ==> #[trigger] pieces@[k]@ == ps[k],
            vals@.len() == i,
            forall|k: int|
                0 <= k < i ==> parse_unsigned(trim(#[trigger] ps[k]), u32::MAX as nat) == Some(
                    vals@[k] as nat,
                ),
        decreases n - i,
    {
        let t = trim_chars(pieces[i].as_slice());
        match parse_u32_chars(t.as_slice()) {
            Some(v) => {
                vals.push(v);
            },
            None => {
                proof {
                    lemma_first_unparsable_char(ps, i as int);
                }
                return Err(AttrListError::InvalidValue(string_from(pieces[i].as_slice())));
            },
        }
        i = i + 1;
    }
    let ghost vs = piece_values(ps);
    proof {
        lemma_first_unparsable_char(ps, -1);
        assert forall|k: int| 0 <= k < vs.len() implies vs[k] == vals@[k] as nat by {}
    }
    if vals.len() != 5 {
        return Err(AttrListError::WrongCount(vals.len()));
    }
    let mut k: usize = 0;
    while k < 5
        invariant
            k <= 5,
            vals@.len() == 5,
            ps == split(input@, ':'),
            first_unparsable(ps) == -1,
            vs == piece_values(ps),
            vs.len() == 5,
            forall|j: int| #![trigger vs[j]] #![trigger vals@[j]] 0 <= j < 5 ==> vs[j] == vals@[j] as nat,
            forall|j: int| 0 <= j < k ==> lo <= #[trigger] vals@[j] <= hi,
        decreases 5 - k,
    {
        if !(lo <= vals[k] && vals[k] <= hi) {
            return Err(AttrListError::OutOfRange(k, vals[k]));
        }
        k = k + 1;
    }
    let b = BaseAttributes {
        perception: vals[0],
        memory: vals[1],
        willpower: vals[2],
        intelligence: vals[3],
        charisma: vals[4],
    };
    proof {
        let s = per_mem_wil_int_cha(b);
        assert(s =~= vals@);
        lemma_in_range_none(s, lo, hi);
    }
    Ok(b)
}

proof fn lemma_in_range_none(vs: Seq<u32>, lo: u32, hi: u32)
    requires
        forall|j: int| 0 <= j < vs.len() ==> lo <= #[trigger] vs[j] <= hi,
    ensures
        first_out_of_range(vs, lo, hi) == -1,
    decreases vs.len(),
{
    if vs.len() > 0 {
        let t = vs.drop_first();
        assert forall|j: int| 0 <= j < t.len() implies lo <= #[trigger] t[j] <= hi by {
            assert(t[j] == vs[j + 1]);
        }
        lemma_in_range_none(t, lo, hi);
    }
}

/// Parse `PER:MEM:WIL:INT:CHA` base attributes (e.g. `27:22:17:17:16`); each
/// value must lie in 17..=27.
pub fn parse_attributes(input: &str) -> (r: Result<BaseAttributes, AttrListError>)
    ensures
        five_values_result(input@, 17, 27, r),
        match r {
            Ok(b) => five_values_ok(input@, 17, 27) == Some(b),
            Err(_) => five_values_ok(input@, 17, 27) is None,
        },
{
    let r = parse_five(input, 17, 27);
    proof {
        lemma_five_values_ok(input@, 17, 27, r);
    }
    r
}

/// Parse `PER:MEM:WIL:INT:CHA` implant bonuses (e.g. `0:1:2:0:1`); each value
/// must lie in 0..=10.
pub fn parse_implant_bonuses(input: &str) -> (r: Result<BaseAttributes, AttrListError>)
    ensures
        five_values_result(input@, 0, 10, r),
        match r {
            Ok(b) => five_values_ok(input@, 0, 10) == Some(b),
            Err(_) => five_values_ok(input@, 0, 10) is None,
        },
{
    let r = parse_five(input, 0, 10);
    proof {
        lemma_five_values_ok(input@, 0, 10, r);
    }
    r
}

} // verus!
