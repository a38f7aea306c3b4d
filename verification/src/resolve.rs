//! Resolving what the optimizer runs on: base attributes and implant bonuses
//! from the command line or ESI, the saved character a query names, and the
//! claims of an SSO access token.
use vstd::prelude::*;
use crate::accounts::{account_index, AccountsStore, StoredAccount};
use crate::attributes::{
    base_get, bonus_total, sat_sub, sum_bonuses, Attribute, BaseAttributes,
    ImplantRecord,
};
use crate::cli::OptimizeArgs;
use crate::esi::CharacterData;
use crate::parser::{
    five_values_ok, five_values_result, parse_attributes, parse_implant_bonuses, AttrListError,
};
use crate::text::{
    chars_of, decimal, extend_str, extend_chars, parse_u64_chars, parse_unsigned, split,
    split_chars, string_from, u64_to_chars,
};

verus! {

// ---------------------------------------------------------------------------
// Attributes
// ---------------------------------------------------------------------------

pub open spec fn uniform(v: u32) -> BaseAttributes {
    BaseAttributes { intelligence: v, charisma: v, perception: v, memory: v, willpower: v }
}

/// The implant bonus summed from ESI's active implant ids into `u32` fields,
/// each bonus added as the `u32` with its bits.
pub open spec fn esi_implant_bonus(ids: Seq<u32>, implants: Seq<ImplantRecord>) -> BaseAttributes {
    BaseAttributes {
        intelligence: bonus_total(ids, implants, Attribute::Intelligence, true) as u32,
        charisma: bonus_total(ids, implants, Attribute::Charisma, true) as u32,
        perception: bonus_total(ids, implants, Attribute::Perception, true) as u32,
        memory: bonus_total(ids, implants, Attribute::Memory, true) as u32,
        willpower: bonus_total(ids, implants, Attribute::Willpower, true) as u32,
    }
}

/// ESI's implant sums fit the `u32` fields that hold them (a sum past
/// `u32::MAX` is an arithmetic overflow).
pub open spec fn esi_bonus_fits(ids: Seq<u32>, implants: Seq<ImplantRecord>) -> bool {
    forall|a: Attribute| bonus_total(ids, implants, a, true) <= u32::MAX
}

proof fn lemma_wrapped_total_nonneg(ids: Seq<u32>, implants: Seq<ImplantRecord>, a: Attribute)
    ensures
        bonus_total(ids, implants, a, true) >= 0,
    decreases ids.len(),
{
    if ids.len() > 0 {
        lemma_wrapped_total_nonneg(ids.drop_last(), implants, a);
    }
}

/// The implant bonus the resolution chain yields, if it yields one: the CLI
/// value, else the sum over ESI's active implants, else zero.
pub open spec fn implant_choice(
    arg: Option<String>,
    esi: Option<CharacterData>,
    implants: Seq<ImplantRecord>,
) -> Option<BaseAttributes> {
    match arg {
        Some(s) => five_values_ok(s@, 0, 10),
        None => match esi {
            Some(d) => Some(esi_implant_bonus(d.active_implant_ids@, implants)),
            None => Some(uniform(0)),
        },
    }
}

/// The base attributes the resolution chain yields given the implant bonus:
/// the CLI value, else ESI's attributes less the implant bonus (clamped at
/// zero), else 17 everywhere.
pub open spec fn base_choice(arg: Option<String>, esi: Option<CharacterData>, bonus: BaseAttributes) -> Option<
    BaseAttributes,
> {
    match arg {
        Some(s) => five_values_ok(s@, 17, 27),
        None => match esi {
            Some(d) => match d.base_attributes {
                Some(eff) => Some(
                    BaseAttributes {
                        intelligence: sat_sub(eff.intelligence, bonus.intelligence),
                        charisma: sat_sub(eff.charisma, bonus.charisma),
                        perception: sat_sub(eff.perception, bonus.perception),
                        memory: sat_sub(eff.memory, bonus.memory),
                        willpower: sat_sub(eff.willpower, bonus.willpower),
                    },
                ),
                None => Some(uniform(17)),
            },
            None => Some(uniform(17)),
        },
    }
}

/// Where the base attributes came from.
pub open spec fn source_label(arg: Option<String>, esi: Option<CharacterData>) -> Seq<char> {
    match arg {
        Some(_) => "CLI override"@,
        None => match esi {
            Some(d) => match d.base_attributes {
                Some(_) => "ESI /attributes/"@,
                None => "default (ESI attributes unavailable)"@,
            },
            None => "default"@,
        },
    }
}

/// Resolve base attributes and implant bonuses from CLI overrides or ESI data.
/// Returns `(base_attrs, source_label, implant_bonus)`; a malformed CLI value is
/// reported (the implant string is checked first).
pub fn resolve_attributes(
    args: &OptimizeArgs,
    esi_data: &Option<CharacterData>,
    implants: &[ImplantRecord],
) -> (r: Result<(BaseAttributes, &'static str, BaseAttributes), AttrListError>)
    requires
        args.implant_bonuses is None && esi_data is Some ==> esi_bonus_fits(
            esi_data->0.active_implant_ids@,
            implants@,
        ),
    ensures
        match implant_choice(args.implant_bonuses, *esi_data, implants@) {
            None => r matches Err(e) && five_values_result(
                args.implant_bonuses->0@,
                0,
                10,
                Err(e),
            ),
            Some(bonus) => match base_choice(args.attributes, *esi_data, bonus) {
                None => r matches Err(e) && five_values_result(
                    args.attributes->0@,
                    17,
                    27,
                    Err(e),
                ),
                Some(base) => r matches Ok((b, label, i)) && b == base && i == bonus && label@
                    == source_label(args.attributes, *esi_data),
            },
        },
{
    proof {
        reveal_strlit("CLI override");
        reveal_strlit("ESI /attributes/");
        reveal_strlit("default (ESI attributes unavailable)");
        reveal_strlit("default");
    }
    let implant_bonus = match &args.implant_bonuses {
        Some(s) => match parse_implant_bonuses(s.as_str()) {
            Ok(b) => b,
            Err(e) => return Err(e),
        },
        None => match esi_data {
            Some(data) => {
                let sums = sum_bonuses(data.active_implant_ids.as_slice(), implants, true);
                proof {
                    let ids = data.active_implant_ids@;
                    assert(bonus_total(ids, implants@, Attribute::Intelligence, true) <= u32::MAX);
                    assert(bonus_total(ids, implants@, Attribute::Charisma, true) <= u32::MAX);
                    assert(bonus_total(ids, implants@, Attribute::Perception, true) <= u32::MAX);
                    assert(bonus_total(ids, implants@, Attribute::Memory, true) <= u32::MAX);
                    assert(bonus_total(ids, implants@, Attribute::Willpower, true) <= u32::MAX);
                    lemma_wrapped_total_nonneg(ids, implants@, Attribute::Intelligence);
                    lemma_wrapped_total_nonneg(ids, implants@, Attribute::Charisma);
                    lemma_wrapped_total_nonneg(ids, implants@, Attribute::Perception);
                    lemma_wrapped_total_nonneg(ids, implants@, Attribute::Memory);
                    lemma_wrapped_total_nonneg(ids, implants@, Attribute::Willpower);
                }
                BaseAttributes {
                    intelligence: sums[0] as u32,
                    charisma: sums[1] as u32,
                    perception: sums[2] as u32,
                    memory: sums[3] as u32,
                    willpower: sums[4] as u32,
                }
            },
            None => BaseAttributes::zero(),
        },
    };
    let default_base = BaseAttributes {
        perception: 17,
        memory: 17,
        willpower: 17,
        intelligence: 17,
        charisma: 17,
    };
    match &args.attributes {
        Some(s) => match parse_attributes(s.as_str()) {
            Ok(b) => Ok((b, "CLI override", implant_bonus)),
            Err(e) => Err(e),
        },
        None => match esi_data {
            Some(data) => match data.base_attributes {
                Some(eff) => {
                    let b = eff.sub(&implant_bonus);
                    proof {
                        assert(base_get(b, Attribute::Intelligence) == sat_sub(eff.intelligence, implant_bonus.intelligence));
                        assert(base_get(b, Attribute::Charisma) == sat_sub(eff.charisma, implant_bonus.charisma));
                        assert(base_get(b, Attribute::Perception) == sat_sub(eff.perception, implant_bonus.perception));
                        assert(base_get(b, Attribute::Memory) == sat_sub(eff.memory, implant_bonus.memory));
                        assert(base_get(b, Attribute::Willpower) == sat_sub(eff.willpower, implant_bonus.willpower));
                    }
                    Ok((b, "ESI /attributes/", implant_bonus))
                },
                None => Ok((default_base, "default (ESI attributes unavailable)", implant_bonus)),
            },
            None => Ok((default_base, "default", implant_bonus)),
        },
    }
}

// ---------------------------------------------------------------------------
// Character lookup
// ---------------------------------------------------------------------------

/// `str::to_lowercase` of a text: Unicode lower-case mapping, a function of the
/// text alone.
pub uninterp spec fn lowercased(s: Seq<char>) -> Seq<char>;

/// `str::to_lowercase`. Claims only that the result is the Unicode lower-case
/// form of the argument, whatever that form is; the mapping tables are not
/// restated here.
#[verifier::external_body]
pub(crate) fn to_lowercase(s: &str) -> (r: String)
    ensures
        r@ == lowercased(s@),
{
    s.to_lowercase()
}

/// `hay` contains `needle` as a contiguous run (always, for an empty needle).
pub open spec fn contains_text(hay: Seq<char>, needle: Seq<char>) -> bool {
    exists|i: int| 0 <= i && i + needle.len() <= hay.len() && #[trigger] hay.subrange(i, i + needle.len()) == needle
}

fn matches_at(hay: &[char], needle: &[char], i: usize) -> (b: bool)
    requires
        i + needle@.len() <= hay@.len(),
    ensures
        b == (hay@.subrange(i as int, i + needle@.len()) == needle@),
{
    let n = needle.len();
    let mut k: usize = 0;
    while k < n
        invariant
            k <= n == needle@.len(),
            i + n <= hay.len(),
            forall|j: int| 0 <= j < k ==> hay@[i + j] == needle@[j],
        decreases n - k,
    {
        if hay[i + k] != needle[k] {
            proof {
                let w = hay@.subrange(i as int, i + n);
                assert(w[k as int] != needle@[k as int]);
            }
            return false;
        }
        k = k + 1;
    }
    proof {
        assert(hay@.subrange(i as int, i + n) =~= needle@);
    }
    true
}

/// Substring test (`str::contains`).
pub fn contains_chars(hay: &[char], needle: &[char]) -> (b: bool)
    ensures
        b == contains_text(hay@, needle@),
{
    if needle.len() > hay.len() {
        return false;
    }
    let last = hay.len() - needle.len();
    let mut i: usize = 0;
    loop
        invariant
            last + needle@.len() == hay@.len(),
            i <= last,
            forall|j: int| 0 <= j < i ==> #[trigger] hay@.subrange(j, j + needle@.len()) != needle@,
        decreases last - i,
    {
        if matches_at(hay, needle, i) {
            return true;
        }
        if i == last {
            return false;
        }
        i = i + 1;
    }
}

/// Index of the first account whose lower-cased name contains the lower-cased query, or -1.
pub open spec fn name_match_index(s: Seq<StoredAccount>, q: Seq<char>) -> int
    decreases s.len(),
{
    if s.len() == 0 {
        -1
    } else if contains_text(lowercased(s[0].character_name@), lowercased(q)) {
        0
    } else {
        let r = name_match_index(s.drop_first(), q);
        if r < 0 {
            -1
        } else {
            r + 1
        }
    }
}

proof fn lemma_name_match_char(s: Seq<StoredAccount>, q: Seq<char>, k: int)
    requires
        -1 <= k < s.len(),
        k >= 0 ==> contains_text(lowercased(s[k].character_name@), lowercased(q)),
        forall|j: int|
            0 <= j < s.len() && (k < 0 || j < k) ==> !contains_text(
                lowercased(#[trigger] s[j].character_name@),
                lowercased(q),
            ),
    ensures
        name_match_index(s, q) == k,
    decreases s.len(),
{
    if s.len() > 0 && !contains_text(lowercased(s[0].character_name@), lowercased(q)) {
        let t = s.drop_first();
        assert forall|j: int| 0 <= j < t.len() && (k - 1 < 0 || j < k - 1) implies !contains_text(
            lowercased(#[trigger] t[j].character_name@),
            lowercased(q),
        ) by {
            assert(t[j] == s[j + 1]);
        }
        if k > 0 {
            lemma_name_match_char(t, q, k - 1);
        } else {
            lemma_name_match_char(t, q, -1);
        }
    }
}

/// The saved account a character query names: the account with that id when
/// the query is a number, else the first whose name contains the query,
/// ignoring case.
pub fn resolve_character<'a>(store: &'a AccountsStore, query: &str) -> (r: Option<&'a StoredAccount>)
    ensures
        ({
            let k = match parse_unsigned(query@, u64::MAX as nat) {
                Some(id) => account_index(store.accounts@, id as u64),
                None => name_match_index(store.accounts@, query@),
            };
            match r {
                Some(a) => 0 <= k < store.accounts@.len() && *a == store.accounts@[k],
                None => k == -1,
            }
        }),
{
    let q = chars_of(query);
    match parse_u64_chars(q.as_slice()) {
        Some(id) => store.get(id),
        None => {
            let ql = to_lowercase(query);
            let qc = chars_of(ql.as_str());
            let n = store.accounts.len();
            let mut i: usize = 0;
            while i < n
                invariant
                    i <= n == store.accounts@.len(),
                    qc@ == lowercased(query@),
                    parse_unsigned(query@, u64::MAX as nat) is None,
                    forall|j: int|
                        0 <= j < i ==> !contains_text(
                            lowercased(#[trigger] store.accounts@[j].character_name@),
                            lowercased(query@),
                        ),
                decreases n - i,
            {
                let nl = to_lowercase(store.accounts[i].character_name.as_str());
                let nc = chars_of(nl.as_str());
                if contains_chars(nc.as_slice(), qc.as_slice()) {
                    proof {
                        lemma_name_match_char(store.accounts@, query@, i as int);
                    }
                    return Some(&store.accounts[i]);
                }
                i = i + 1;
            }
            proof {
                lemma_name_match_char(store.accounts@, query@, -1);
            }
            None
        },
    }
}

// ---------------------------------------------------------------------------
// Access-token claims
// ---------------------------------------------------------------------------

/// Parsed claims from an EVE access token JWT payload.
#[derive(Debug)]
pub struct JwtClaims {
    pub owner_character_id: u64,
    pub character_name: String,
    pub scopes: Vec<String>,
    /// Expiration timestamp (seconds since epoch) from the JWT.
    pub expires_at: u64,
}

/// The character id in a `sub` claim such as `CHARACTER:EVE:<id>`: its last
/// `:`-separated piece, read as a number.
pub open spec fn subject_id(sub: Seq<char>) -> Option<nat> {
    parse_unsigned(split(sub, ':').last(), u64::MAX as nat)
}

/// Build the claims from the payload fields: the id comes from `sub` (no claims
/// when it does not end in a number), the name defaults to `Character <id>`.
pub fn claims_from_raw(sub: &str, name: Option<String>, scp: Vec<String>, exp: u64) -> (r: Option<
    JwtClaims,
>)
    ensures
        match subject_id(sub@) {
            None => r is None,
            Some(id) => r matches Some(c) && c.owner_character_id == id && c.scopes == scp
                && c.expires_at == exp && c.character_name@ == match name {
                Some(n) => n@,
                None => "Character "@ + decimal(id),
            },
        },
{
    let s = chars_of(sub);
    let pieces = split_chars(s.as_slice(), ':');
    proof {
        crate::text::lemma_split_nonempty(sub@, ':');
    }
    let last = &pieces[pieces.len() - 1];
    let id = match parse_u64_chars(last.as_slice()) {
        Some(v) => v,
        None => return None,
    };
    let character_name = match name {
        Some(n) => n,
        None => {
            let mut v: Vec<char> = Vec::new();
            extend_str(&mut v, "Character ");
            let d = u64_to_chars(id);
            extend_chars(&mut v, d.as_slice());
            string_from(v.as_slice())
        },
    };
    Some(JwtClaims { owner_character_id: id, character_name, scopes: scp, expires_at: exp })
}

} // verus!
