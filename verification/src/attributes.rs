//! Character attributes: the five attribute kinds, remapped base values, implant
//! bonuses, and the effective values that training rates use.
use vstd::prelude::*;

verus! {

/// The five EVE Online character attributes.
#[derive(Debug, Clone, Copy, PartialEq, Eq, Structural, Hash)]
pub enum Attribute {
    Intelligence,
    Charisma,
    Perception,
    Memory,
    Willpower,
}

/// Lower-case name of an attribute, as it is written in reports and data files.
pub open spec fn attribute_name(a: Attribute) -> Seq<char> {
    match a {
        Attribute::Intelligence => seq!['i', 'n', 't', 'e', 'l', 'l', 'i', 'g', 'e', 'n', 'c', 'e'],
        Attribute::Charisma => seq!['c', 'h', 'a', 'r', 'i', 's', 'm', 'a'],
        Attribute::Perception => seq!['p', 'e', 'r', 'c', 'e', 'p', 't', 'i', 'o', 'n'],
        Attribute::Memory => seq!['m', 'e', 'm', 'o', 'r', 'y'],
        Attribute::Willpower => seq!['w', 'i', 'l', 'l', 'p', 'o', 'w', 'e', 'r'],
    }
}

impl Attribute {
    /// The attribute's lower-case name.
    pub fn name(&self) -> (r: &'static str)
        ensures
            r@ == attribute_name(*self),
    {
        match self {
            Attribute::Intelligence => {
                proof {
                    reveal_strlit("intelligence");
                }
                "intelligence"
            },
            Attribute::Charisma => {
                proof {
                    reveal_strlit("charisma");
                }
                "charisma"
            },
            Attribute::Perception => {
                proof {
                    reveal_strlit("perception");
                }
                "perception"
            },
            Attribute::Memory => {
                proof {
                    reveal_strlit("memory");
                }
                "memory"
            },
            Attribute::Willpower => {
                proof {
                    reveal_strlit("willpower");
                }
                "willpower"
            },
        }
    }
}

/// Remapped base attribute values (before implants), or a per-attribute amount
/// such as the implant bonus that is added to them.
#[derive(Debug, Clone, Copy, PartialEq, Eq, Structural)]
pub struct BaseAttributes {
    pub intelligence: u32,
    pub charisma: u32,
    pub perception: u32,
    pub memory: u32,
    pub willpower: u32,
}

/// Value of one attribute of a base set.
pub open spec fn base_get(b: BaseAttributes, a: Attribute) -> u32 {
    match a {
        Attribute::Intelligence => b.intelligence,
        Attribute::Charisma => b.charisma,
        Attribute::Perception => b.perception,
        Attribute::Memory => b.memory,
        Attribute::Willpower => b.willpower,
    }
}

/// Pointwise sum fits in `u32`.
pub open spec fn add_fits(x: BaseAttributes, y: BaseAttributes) -> bool {
    &&& x.intelligence + y.intelligence <= u32::MAX
    &&& x.charisma + y.charisma <= u32::MAX
    &&& x.perception + y.perception <= u32::MAX
    &&& x.memory + y.memory <= u32::MAX
    &&& x.willpower + y.willpower <= u32::MAX
}

/// Pointwise difference, clamped at zero.
pub open spec fn sat_sub(x: u32, y: u32) -> u32 {
    if x >= y {
        (x - y) as u32
    } else {
        0
    }
}

impl BaseAttributes {
    /// All five values zero.
    pub fn zero() -> (r: Self)
        ensures
            r == (BaseAttributes { intelligence: 0, charisma: 0, perception: 0, memory: 0, willpower: 0 }),
    {
        BaseAttributes { intelligence: 0, charisma: 0, perception: 0, memory: 0, willpower: 0 }
    }

    /// Value of one attribute.
    pub fn get(&self, attr: Attribute) -> (r: u32)
        ensures
            r == base_get(*self, attr),
    {
        match attr {
            Attribute::Intelligence => self.intelligence,
            Attribute::Charisma => self.charisma,
            Attribute::Perception => self.perception,
            Attribute::Memory => self.memory,
            Attribute::Willpower => self.willpower,
        }
    }

    /// Add another attribute set pointwise.
    pub fn add(&self, other: &Self) -> (r: Self)
        requires
            add_fits(*self, *other),
        ensures
            forall|a: Attribute| base_get(r, a) == base_get(*self, a) + base_get(*other, a),
    {
        BaseAttributes {
            intelligence: self.intelligence + other.intelligence,
            charisma: self.charisma + other.charisma,
            perception: self.perception + other.perception,
            memory: self.memory + other.memory,
            willpower: self.willpower + other.willpower,
        }
    }

    /// Subtract another attribute set pointwise; a value below zero becomes zero.
    pub fn sub(&self, other: &Self) -> (r: Self)
        ensures
            forall|a: Attribute| base_get(r, a) == sat_sub(base_get(*self, a), base_get(*other, a)),
    {
        BaseAttributes {
            intelligence: self.intelligence.saturating_sub(other.intelligence),
            charisma: self.charisma.saturating_sub(other.charisma),
            perception: self.perception.saturating_sub(other.perception),
            memory: self.memory.saturating_sub(other.memory),
            willpower: self.willpower.saturating_sub(other.willpower),
        }
    }

    /// Sum of the five values.
    pub fn total(&self) -> (r: u64)
        ensures
            r == self.intelligence + self.charisma + self.perception + self.memory
                + self.willpower,
    {
        self.intelligence as u64 + self.charisma as u64 + self.perception as u64
            + self.memory as u64 + self.willpower as u64
    }
}

/// Effective attribute values: base plus implant bonuses. Bonuses may be
/// negative, and any number of implants may be active, so the values are
/// wide signed integers.
#[derive(Debug, Clone, Copy, PartialEq, Eq, Structural)]
pub struct EffectiveAttributes {
    pub intelligence: i128,
    pub charisma: i128,
    pub perception: i128,
    pub memory: i128,
    pub willpower: i128,
}

pub open spec fn eff_get(e: EffectiveAttributes, a: Attribute) -> i128 {
    match a {
        Attribute::Intelligence => e.intelligence,
        Attribute::Charisma => e.charisma,
        Attribute::Perception => e.perception,
        Attribute::Memory => e.memory,
        Attribute::Willpower => e.willpower,
    }
}

/// The bonus an implant grants to each attribute (zero where it grants none).
#[derive(Debug, Clone, Copy, PartialEq, Eq, Structural)]
pub struct ImplantBonuses {
    pub intelligence: i32,
    pub charisma: i32,
    pub perception: i32,
    pub memory: i32,
    pub willpower: i32,
}

pub open spec fn bonus_get(b: ImplantBonuses, a: Attribute) -> i32 {
    match a {
        Attribute::Intelligence => b.intelligence,
        Attribute::Charisma => b.charisma,
        Attribute::Perception => b.perception,
        Attribute::Memory => b.memory,
        Attribute::Willpower => b.willpower,
    }
}

/// An implant and the attribute bonuses it grants.
#[derive(Debug, Clone)]
pub struct ImplantRecord {
    pub type_id: u32,
    pub name: String,
    pub bonuses: ImplantBonuses,
}

/// Index of the first implant with the given type id, or -1.
pub open spec fn implant_index(implants: Seq<ImplantRecord>, id: u32) -> int
    decreases implants.len(),
{
    if implants.len() == 0 {
        -1
    } else if implants[0].type_id == id {
        0
    } else {
        let r = implant_index(implants.drop_first(), id);
        if r < 0 {
            -1
        } else {
            r + 1
        }
    }
}

/// A bonus as it is added: itself, or, when `wrap` is set, read as the `u32`
/// with the same bits (a negative bonus becomes `bonus + 2^32`).
pub open spec fn bonus_addend(v: i32, wrap: bool) -> int {
    if wrap && v < 0 {
        v + 0x1_0000_0000
    } else {
        v as int
    }
}

/// Bonus an implant id contributes to `a`: that of the first catalog entry with
/// the id, or zero when the catalog has none.
pub open spec fn implant_bonus_for(implants: Seq<ImplantRecord>, id: u32, a: Attribute, wrap: bool) -> int {
    let k = implant_index(implants, id);
    if k < 0 {
        0
    } else {
        bonus_addend(bonus_get(implants[k].bonuses, a), wrap)
    }
}

/// Total bonus to `a` from the active implant ids (each bonus read as `u32`
/// bits when `wrap` is set).
pub open spec fn bonus_total(ids: Seq<u32>, implants: Seq<ImplantRecord>, a: Attribute, wrap: bool) -> int
    decreases ids.len(),
{
    if ids.len() == 0 {
        0
    } else {
        bonus_total(ids.drop_last(), implants, a, wrap) + implant_bonus_for(implants, ids.last(), a, wrap)
    }
}

/// Total bonus to `a` from the active implant ids.
pub open spec fn implant_total(ids: Seq<u32>, implants: Seq<ImplantRecord>, a: Attribute) -> int {
    bonus_total(ids, implants, a, false)
}

proof fn lemma_implant_index(implants: Seq<ImplantRecord>, id: u32)
    ensures
        -1 <= implant_index(implants, id) < implants.len(),
        implant_index(implants, id) >= 0 ==> implants[implant_index(implants, id)].type_id
            == id,
        forall|j: int|
            0 <= j < implants.len() && (implant_index(implants, id) < 0 || j < implant_index(
                implants,
                id,
            )) ==> implants[j].type_id != id,
    decreases implants.len(),
{
    if implants.len() > 0 && implants[0].type_id != id {
        lemma_implant_index(implants.drop_first(), id);
        let r = implant_index(implants, id);
        assert forall|j: int|
            0 <= j < implants.len() && (r < 0 || j < r) implies implants[j].type_id != id by {
            if j > 0 {
                assert(implants[j] == implants.drop_first()[j - 1]);
            }
        }
    }
}

proof fn lemma_implant_index_char(implants: Seq<ImplantRecord>, id: u32, k: int)
    requires
        -1 <= k < implants.len(),
        k >= 0 ==> implants[k].type_id == id,
        forall|j: int| 0 <= j < implants.len() && (k < 0 || j < k) ==> implants[j].type_id != id,
    ensures
        implant_index(implants, id) == k,
    decreases implants.len(),
{
    if implants.len() > 0 && implants[0].type_id != id {
        let t = implants.drop_first();
        assert forall|j: int| 0 <= j < t.len() && (k - 1 < 0 || j < k - 1) implies t[j].type_id
            != id by {
            assert(t[j] == implants[j + 1]);
        }
        if k > 0 {
            lemma_implant_index_char(t, id, k - 1);
        } else {
            lemma_implant_index_char(t, id, -1);
        }
    }
}

/// Position of the first catalog entry with the given type id.
pub fn find_implant(implants: &[ImplantRecord], id: u32) -> (r: Option<usize>)
    ensures
        match r {
            Some(k) => implant_index(implants@, id) == k as int && k < implants@.len(),
            None => implant_index(implants@, id) == -1,
        },
{
    let n = implants.len();
    let mut i: usize = 0;
    while i < n
        invariant
            i <= n == implants@.len(),
            forall|j: int| 0 <= j < i ==> implants@[j].type_id != id,
        decreases n - i,
    {
        if implants[i].type_id == id {
            proof {
                lemma_implant_index_char(implants@, id, i as int);
            }
            return Some(i);
        }
        i = i + 1;
    }
    proof {
        lemma_implant_index_char(implants@, id, -1);
    }
    None
}

fn addend_exec(v: i32, wrap: bool) -> (r: i128)
    ensures
        r == bonus_addend(v, wrap),
{
    if wrap && v < 0 {
        v as i128 + 0x1_0000_0000
    } else {
        v as i128
    }
}

/// The bonus of each attribute summed over the active implant ids, in the
/// order intelligence, charisma, perception, memory, willpower (each bonus
/// read as `u32` bits when `wrap` is set).
pub fn sum_bonuses(active_implant_ids: &[u32], implants: &[ImplantRecord], wrap: bool) -> (r: [i128; 5])
    ensures
        r[0] == bonus_total(active_implant_ids@, implants@, Attribute::Intelligence, wrap),
        r[1] == bonus_total(active_implant_ids@, implants@, Attribute::Charisma, wrap),
        r[2] == bonus_total(active_implant_ids@, implants@, Attribute::Perception, wrap),
        r[3] == bonus_total(active_implant_ids@, implants@, Attribute::Memory, wrap),
        r[4] == bonus_total(active_implant_ids@, implants@, Attribute::Willpower, wrap),
        forall|k: int| 0 <= k < 5 ==> -0x1_0000_0000_0000_0000_0000_0000 <= #[trigger] r[k] <= 0x1_0000_0000_0000_0000_0000_0000,
{
    let ghost ids = active_implant_ids@;
    let mut acc: [i128; 5] = [0, 0, 0, 0, 0];
    let n = active_implant_ids.len();
    let mut i: usize = 0;
    while i < n
        invariant
            i <= n == ids.len(),
            n <= usize::MAX,
            ids == active_implant_ids@,
            acc[0] == bonus_total(ids.take(i as int), implants@, Attribute::Intelligence, wrap),
            acc[1] == bonus_total(ids.take(i as int), implants@, Attribute::Charisma, wrap),
            acc[2] == bonus_total(ids.take(i as int), implants@, Attribute::Perception, wrap),
            acc[3] == bonus_total(ids.take(i as int), implants@, Attribute::Memory, wrap),
            acc[4] == bonus_total(ids.take(i as int), implants@, Attribute::Willpower, wrap),
            forall|k: int| 0 <= k < 5 ==> -(i * 0x1_0000_0000) <= #[trigger] acc[k] <= i * 0x1_0000_0000,
        decreases n - i,
    {
        let id = active_implant_ids[i];
        proof {
            assert(ids.take(i as int + 1).drop_last() =~= ids.take(i as int));
            assert(ids.take(i as int + 1).last() == id);
            assert((i + 1) * 0x1_0000_0000 == i * 0x1_0000_0000 + 0x1_0000_0000) by (nonlinear_arith);
            assert(i * 0x1_0000_0000 <= 0x1_0000_0000_0000_0000 * 0x1_0000_0000) by (nonlinear_arith)
                requires
                    i <= 0xffff_ffff_ffff_ffff,
            ;
        }
        match find_implant(implants, id) {
            Some(k) => {
                let b = implants[k].bonuses;
                acc[0] = acc[0] + addend_exec(b.intelligence, wrap);
                acc[1] = acc[1] + addend_exec(b.charisma, wrap);
                acc[2] = acc[2] + addend_exec(b.perception, wrap);
                acc[3] = acc[3] + addend_exec(b.memory, wrap);
                acc[4] = acc[4] + addend_exec(b.willpower, wrap);
            },
            None => {},
        }
        i = i + 1;
    }
    proof {
        assert(ids.take(n as int) =~= ids);
        assert(n * 0x1_0000_0000 <= 0x1_0000_0000_0000_0000 * 0x1_0000_0000) by (nonlinear_arith)
            requires
                n <= 0xffff_ffff_ffff_ffff,
        ;
    }
    acc
}

impl EffectiveAttributes {
    /// Value of one attribute.
    pub fn get(&self, attr: Attribute) -> (r: i128)
        ensures
            r == eff_get(*self, attr),
    {
        match attr {
            Attribute::Intelligence => self.intelligence,
            Attribute::Charisma => self.charisma,
            Attribute::Perception => self.perception,
            Attribute::Memory => self.memory,
            Attribute::Willpower => self.willpower,
        }
    }

    /// The base values themselves, with no implants.
    pub fn from_base(base: &BaseAttributes) -> (r: Self)
        ensures
            forall|a: Attribute| eff_get(r, a) == base_get(*base, a),
    {
        EffectiveAttributes {
            intelligence: base.intelligence as i128,
            charisma: base.charisma as i128,
            perception: base.perception as i128,
            memory: base.memory as i128,
            willpower: base.willpower as i128,
        }
    }

    /// Base values plus the bonuses of the active implants, each implant id
    /// looked up in the catalog (ids not in the catalog add nothing, an id
    /// listed twice counts twice).
    pub fn from_base_and_implants(
        base: &BaseAttributes,
        active_implant_ids: &[u32],
        implants: &[ImplantRecord],
    ) -> (r: Self)
        ensures
            forall|a: Attribute|
                eff_get(r, a) == base_get(*base, a) + implant_total(
                    active_implant_ids@,
                    implants@,
                    a,
                ),
    {
        let sums = sum_bonuses(active_implant_ids, implants, false);
        EffectiveAttributes {
            intelligence: base.intelligence as i128 + sums[0],
            charisma: base.charisma as i128 + sums[1],
            perception: base.perception as i128 + sums[2],
            memory: base.memory as i128 + sums[3],
            willpower: base.willpower as i128 + sums[4],
        }
    }
}

} // verus!
