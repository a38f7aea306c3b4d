//! Saved EVE SSO accounts: the list kept in `accounts.json` and the
//! operations the login, logout and optimize commands perform on it.
use vstd::prelude::*;
use crate::text::{chars_of, parse_u64_chars, parse_unsigned};

verus! {

// ---------------------------------------------------------------------------
// Clock
// ---------------------------------------------------------------------------

/// Seconds since the Unix epoch from the system clock (0 if the clock is set
/// before the epoch). Nothing is promised of the value: it is the time.
#[verifier::external_body]
pub(crate) fn now_secs() -> u64 {
    std::time::SystemTime::now().duration_since(std::time::UNIX_EPOCH).map(|d| d.as_secs()).unwrap_or(0)
}

/// Milliseconds since the Unix epoch from the system clock (0 if the clock is
/// set before the epoch). Nothing is promised of the value: it is the time.
#[verifier::external_body]
pub(crate) fn now_millis() -> i64 {
    std::time::SystemTime::now().duration_since(std::time::UNIX_EPOCH).map(|d| d.as_millis() as i64).unwrap_or(0)
}

// ---------------------------------------------------------------------------
// Account entries (accounts.json written by the PKCE login)
// ---------------------------------------------------------------------------

/// A single stored account entry.
#[derive(Debug)]
pub struct StoredAccountEntry {
    pub character_id: u64,
    /// Character name resolved from ESI (may be empty until first API call).
    pub character_name: String,
    pub access_token: String,
    pub refresh_token: String,
    /// Seconds since epoch when the access token expires.
    pub expires_at: u64,
    pub scopes: Vec<String>,
    /// When this entry was created/last updated.
    pub created_at: u64,
}

/// The entries whose character id differs from `id`, in order.
pub open spec fn entries_without(s: Seq<StoredAccountEntry>, id: u64) -> Seq<StoredAccountEntry>
    decreases s.len(),
{
    if s.len() == 0 {
        Seq::empty()
    } else {
        let p = entries_without(s.drop_last(), id);
        if s.last().character_id != id {
            p.push(s.last())
        } else {
            p
        }
    }
}

proof fn lemma_entries_without_len(s: Seq<StoredAccountEntry>, id: u64)
    ensures
        entries_without(s, id).len() <= s.len(),
        entries_without(s, id).len() < s.len() <==> exists|k: int|
            0 <= k < s.len() && s[k].character_id == id,
    decreases s.len(),
{
    if s.len() > 0 {
        let t = s.drop_last();
        lemma_entries_without_len(t, id);
        if exists|k: int| 0 <= k < t.len() && t[k].character_id == id {
            let k = choose|k: int| 0 <= k < t.len() && t[k].character_id == id;
            assert(s[k] == t[k]);
        }
        if exists|k: int| 0 <= k < s.len() && s[k].character_id == id {
            let k = choose|k: int| 0 <= k < s.len() && s[k].character_id == id;
            if k < s.len() - 1 {
                assert(t[k] == s[k]);
            }
        }
    }
}

/// Keep the entries whose id differs from `id`.
fn retain_other_entries(accounts: Vec<StoredAccountEntry>, id: u64) -> (r: Vec<
    StoredAccountEntry,
>)
    ensures
        r@ == entries_without(accounts@, id),
{
    let ghost orig = accounts@;
    let mut kept: Vec<StoredAccountEntry> = Vec::new();
    for e in it: accounts.into_iter()
        invariant
            it.seq() == orig,
            kept@ == entries_without(orig.take(it.index() as int), id),
    {
        proof {
            let i = it.index() as int;
            assert(orig.take(i + 1).drop_last() =~= orig.take(i));
            assert(orig.take(i + 1).last() == e);
        }
        if e.character_id != id {
            kept.push(e);
        }
    }
    proof {
        assert(orig.take(orig.len() as int) =~= orig);
    }
    kept
}

/// Save or update an account entry: any entry with the same character id is
/// dropped and the new one is appended. Returns the list to be written back.
pub fn save_account(accounts: Vec<StoredAccountEntry>, entry: StoredAccountEntry) -> (r: Vec<
    StoredAccountEntry,
>)
    ensures
        r@ == entries_without(accounts@, entry.character_id).push(entry),
{
    let id = entry.character_id;
    let mut kept = retain_other_entries(accounts, id);
    kept.push(entry);
    kept
}

/// Remove the entries of a character. Returns the remaining list and whether
/// anything was removed (if nothing was, the list need not be written back).
pub fn remove_account(accounts: Vec<StoredAccountEntry>, char_id: u64) -> (r: (
    Vec<StoredAccountEntry>,
    bool,
))
    ensures
        r.0@ == entries_without(accounts@, char_id),
        r.1 <==> exists|k: int| 0 <= k < accounts@.len() && accounts@[k].character_id == char_id,
{
    let ghost orig = accounts@;
    let before = accounts.len();
    let kept = retain_other_entries(accounts, char_id);
    proof {
        lemma_entries_without_len(orig, char_id);
    }
    let removed = kept.len() < before;
    (kept, removed)
}

/// All characters as (id, name) pairs, in stored order.
pub fn list_characters(accounts: &Vec<StoredAccountEntry>) -> (r: Vec<(u64, String)>)
    ensures
        r@.len() == accounts@.len(),
        forall|k: int|
            0 <= k < r@.len() ==> (#[trigger] r@[k]).0 == accounts@[k].character_id && r@[k].1
                == accounts@[k].character_name,
{
    let mut out: Vec<(u64, String)> = Vec::new();
    let n = accounts.len();
    let mut i: usize = 0;
    while i < n
        invariant
            i <= n == accounts@.len(),
            out@.len() == i,
            forall|k: int|
                0 <= k < i ==> (#[trigger] out@[k]).0 == accounts@[k].character_id && out@[k].1
                    == accounts@[k].character_name,
        decreases n - i,
    {
        out.push((accounts[i].character_id, accounts[i].character_name.clone()));
        i = i + 1;
    }
    out
}

/// Index of the first entry whose token is still valid at `now`, or -1.
pub open spec fn first_unexpired(s: Seq<StoredAccountEntry>, now: u64) -> int
    decreases s.len(),
{
    if s.len() == 0 {
        -1
    } else if s[0].expires_at > now {
        0
    } else {
        let r = first_unexpired(s.drop_first(), now);
        if r < 0 {
            -1
        } else {
            r + 1
        }
    }
}

proof fn lemma_first_unexpired_char(s: Seq<StoredAccountEntry>, now: u64, k: int)
    requires
        -1 <= k < s.len(),
        k >= 0 ==> s[k].expires_at > now,
        forall|j: int| 0 <= j < s.len() && (k < 0 || j < k) ==> s[j].expires_at <= now,
    ensures
        first_unexpired(s, now) == k,
    decreases s.len(),
{
    if s.len() > 0 && s[0].expires_at <= now {
        let t = s.drop_first();
        assert forall|j: int| 0 <= j < t.len() && (k - 1 < 0 || j < k - 1) implies t[j].expires_at
            <= now by {
            assert(t[j] == s[j + 1]);
        }
        if k > 0 {
            lemma_first_unexpired_char(t, now, k - 1);
        } else {
            lemma_first_unexpired_char(t, now, -1);
        }
    }
}

/// The entry whose token `find_valid_token` hands out at time `now`: the first
/// unexpired one, else the first one (an expired token may still work until
/// ESI rejects it), else none.
pub open spec fn token_choice(s: Seq<StoredAccountEntry>, now: u64) -> int {
    if first_unexpired(s, now) >= 0 {
        first_unexpired(s, now)
    } else if s.len() > 0 {
        0
    } else {
        -1
    }
}

/// The token and character id chosen at time `now`.
pub fn find_valid_token_at(accounts: &Vec<StoredAccountEntry>, now: u64) -> (r: Option<(String, u64)>)
    ensures
        ({
            let k = token_choice(accounts@, now);
            match r {
                Some((t, id)) => 0 <= k < accounts@.len() && t == accounts@[k].access_token && id
                    == accounts@[k].character_id,
                None => k == -1,
            }
        }),
{
    let n = accounts.len();
    let mut i: usize = 0;
    while i < n
        invariant
            i <= n == accounts@.len(),
            forall|j: int| 0 <= j < i ==> accounts@[j].expires_at <= now,
        decreases n - i,
    {
        if accounts[i].expires_at > now {
            proof {
                lemma_first_unexpired_char(accounts@, now, i as int);
            }
            return Some((accounts[i].access_token.clone(), accounts[i].character_id));
        }
        i = i + 1;
    }
    proof {
        lemma_first_unexpired_char(accounts@, now, -1);
    }
    if n > 0 {
        Some((accounts[0].access_token.clone(), accounts[0].character_id))
    } else {
        None
    }
}

/// Find the first non-expired account (by the system clock) and return its
/// access token and character ID; falls back to the first account.
pub fn find_valid_token(accounts: &Vec<StoredAccountEntry>) -> (r: Option<(String, u64)>)
    ensures
        exists|now: u64|
            {
                let k = #[trigger] token_choice(accounts@, now);
                match r {
                    Some((t, id)) => 0 <= k < accounts@.len() && t == accounts@[k].access_token
                        && id == accounts@[k].character_id,
                    None => k == -1,
                }
            },
{
    let now = now_secs();
    let r = find_valid_token_at(accounts, now);
    proof {
        let _ = token_choice(accounts@, now);
    }
    r
}

// ---------------------------------------------------------------------------
// Account store (used by login / logout / accounts / optimize --character)
// ---------------------------------------------------------------------------

/// One authenticated character.
#[derive(Debug)]
pub struct StoredAccount {
    pub character_id: u64,
    pub character_name: String,
    pub access_token: String,
    pub refresh_token: String,
    /// Expiry as Unix time in milliseconds.
    pub expires_at_ms: i64,
    /// Client ID used for this authentication.
    pub client_id: String,
}

/// All stored accounts.
#[derive(Debug)]
pub struct AccountsStore {
    pub accounts: Vec<StoredAccount>,
}

/// Index of the first account with the given id, or -1.
pub open spec fn account_index(s: Seq<StoredAccount>, id: u64) -> int
    decreases s.len(),
{
    if s.len() == 0 {
        -1
    } else if s[0].character_id == id {
        0
    } else {
        let r = account_index(s.drop_first(), id);
        if r < 0 {
            -1
        } else {
            r + 1
        }
    }
}

proof fn lemma_account_index_char(s: Seq<StoredAccount>, id: u64, k: int)
    requires
        -1 <= k < s.len(),
        k >= 0 ==> s[k].character_id == id,
        forall|j: int| 0 <= j < s.len() && (k < 0 || j < k) ==> s[j].character_id != id,
    ensures
        account_index(s, id) == k,
    decreases s.len(),
{
    if s.len() > 0 && s[0].character_id != id {
        let t = s.drop_first();
        assert forall|j: int| 0 <= j < t.len() && (k - 1 < 0 || j < k - 1) implies t[j].character_id
            != id by {
            assert(t[j] == s[j + 1]);
        }
        if k > 0 {
            lemma_account_index_char(t, id, k - 1);
        } else {
            lemma_account_index_char(t, id, -1);
        }
    }
}

/// The record that a lookup by character id finds: the first one with that id.
pub open spec fn account_of(s: Seq<StoredAccount>, id: u64) -> Option<StoredAccount> {
    let k = account_index(s, id);
    if k >= 0 {
        Some(s[k])
    } else {
        None
    }
}

/// The account list after an upsert of `a`: the first record with `a`'s id
/// replaced by `a`, or `a` appended when there is none.
pub open spec fn upserted(s: Seq<StoredAccount>, a: StoredAccount) -> Seq<StoredAccount> {
    let k = account_index(s, a.character_id);
    if k >= 0 {
        s.update(k, a)
    } else {
        s.push(a)
    }
}

proof fn lemma_account_index_props(s: Seq<StoredAccount>, id: u64)
    ensures
        -1 <= account_index(s, id) < s.len(),
        account_index(s, id) >= 0 ==> s[account_index(s, id)].character_id == id,
        forall|j: int|
            0 <= j < s.len() && (account_index(s, id) < 0 || j < account_index(s, id))
                ==> s[j].character_id != id,
    decreases s.len(),
{
    if s.len() > 0 && s[0].character_id != id {
        let t = s.drop_first();
        lemma_account_index_props(t, id);
        assert forall|j: int|
            0 <= j < s.len() && (account_index(s, id) < 0 || j < account_index(s, id)) implies s[j].character_id
            != id by {
            if j > 0 {
                assert(s[j] == t[j - 1]);
            }
        }
    }
}

proof fn lemma_account_index_push(p: Seq<StoredAccount>, x: StoredAccount, id: u64)
    ensures
        account_index(p.push(x), id) == (if account_index(p, id) >= 0 {
            account_index(p, id)
        } else if x.character_id == id {
            p.len() as int
        } else {
            -1
        }),
{
    let q = p.push(x);
    lemma_account_index_props(p, id);
    let k = account_index(p, id);
    if k >= 0 {
        assert forall|j: int| 0 <= j < q.len() && (k < 0 || j < k) implies q[j].character_id != id by {
            assert(q[j] == p[j]);
        }
        lemma_account_index_char(q, id, k);
    } else if x.character_id == id {
        assert forall|j: int| 0 <= j < q.len() && j < p.len() implies q[j].character_id != id by {
            assert(q[j] == p[j]);
        }
        lemma_account_index_char(q, id, p.len() as int);
    } else {
        assert forall|j: int| 0 <= j < q.len() implies q[j].character_id != id by {
            if j < p.len() {
                assert(q[j] == p[j]);
            }
        }
        lemma_account_index_char(q, id, -1);
    }
}

/// After an upsert of `a`, a lookup by `a`'s character id finds `a`.
pub proof fn lemma_upsert_then_get(s: Seq<StoredAccount>, a: StoredAccount)
    ensures
        account_of(upserted(s, a), a.character_id) == Some(a),
{
    let id = a.character_id;
    lemma_account_index_props(s, id);
    let k = account_index(s, id);
    let t = upserted(s, a);
    if k >= 0 {
        assert forall|j: int| 0 <= j < t.len() && j < k implies t[j].character_id != id by {
            assert(t[j] == s[j]);
        }
        lemma_account_index_char(t, id, k);
    } else {
        lemma_account_index_push(s, a, id);
    }
}

/// An upsert of `a` leaves what a lookup by any other character id finds.
pub proof fn lemma_upsert_keeps_others(s: Seq<StoredAccount>, a: StoredAccount, id: u64)
    requires
        id != a.character_id,
    ensures
        account_of(upserted(s, a), id) == account_of(s, id),
{
    lemma_account_index_props(s, id);
    lemma_account_index_props(s, a.character_id);
    let k = account_index(s, a.character_id);
    let j0 = account_index(s, id);
    let t = upserted(s, a);
    if k >= 0 {
        assert forall|j: int| 0 <= j < t.len() && (j0 < 0 || j < j0) implies t[j].character_id
            != id by {
            if j != k {
                assert(t[j] == s[j]);
            }
        }
        if j0 >= 0 {
            assert(j0 != k);
            assert(t[j0] == s[j0]);
        }
        lemma_account_index_char(t, id, j0);
    } else {
        lemma_account_index_push(s, a, id);
        if j0 >= 0 {
            assert(t[j0] == s[j0]);
        }
    }
}

/// The accounts satisfying `keep`, in order.
pub open spec fn accounts_where(s: Seq<StoredAccount>, keep: spec_fn(StoredAccount) -> bool) -> Seq<
    StoredAccount,
>
    decreases s.len(),
{
    if s.len() == 0 {
        Seq::empty()
    } else {
        let p = accounts_where(s.drop_last(), keep);
        if keep(s.last()) {
            p.push(s.last())
        } else {
            p
        }
    }
}

pub open spec fn other_id(id: u64) -> spec_fn(StoredAccount) -> bool {
    |a: StoredAccount| a.character_id != id
}

pub open spec fn other_name(name: Seq<char>) -> spec_fn(StoredAccount) -> bool {
    |a: StoredAccount| a.character_name@ != name
}

/// Every account kept by a filter satisfies it.
proof fn lemma_accounts_where_keeps(s: Seq<StoredAccount>, keep: spec_fn(StoredAccount) -> bool)
    ensures
        forall|j: int|
            0 <= j < accounts_where(s, keep).len() ==> #[trigger] keep(accounts_where(s, keep)[j]),
    decreases s.len(),
{
    if s.len() > 0 {
        let p = accounts_where(s.drop_last(), keep);
        lemma_accounts_where_keeps(s.drop_last(), keep);
        if keep(s.last()) {
            assert forall|j: int| 0 <= j < p.len() + 1 implies #[trigger] keep(p.push(s.last())[j]) by {
                if j < p.len() {
                    assert(p.push(s.last())[j] == p[j]);
                }
            }
        }
    }
}

/// A filter that keeps every account with character id `id` leaves what a
/// lookup by `id` finds.
proof fn lemma_accounts_where_lookup(
    s: Seq<StoredAccount>,
    keep: spec_fn(StoredAccount) -> bool,
    id: u64,
)
    requires
        forall|x: StoredAccount| x.character_id == id ==> #[trigger] keep(x),
    ensures
        account_of(accounts_where(s, keep), id) == account_of(s, id),
    decreases s.len(),
{
    if s.len() > 0 {
        let t = s.drop_last();
        let x = s.last();
        let ft = accounts_where(t, keep);
        lemma_accounts_where_lookup(t, keep, id);
        assert(s == t.push(x));
        lemma_account_index_push(t, x, id);
        lemma_account_index_props(t, id);
        lemma_account_index_props(ft, id);
        if keep(x) {
            lemma_account_index_push(ft, x, id);
        }
    }
}

/// Once the accounts of a character id are removed, a lookup by that id
/// finds nothing.
pub proof fn lemma_remove_then_get(s: Seq<StoredAccount>, id: u64)
    ensures
        account_of(accounts_where(s, other_id(id)), id) is None,
{
    let f = accounts_where(s, other_id(id));
    lemma_accounts_where_keeps(s, other_id(id));
    lemma_account_index_props(f, id);
    if account_index(f, id) >= 0 {
        assert(other_id(id)(f[account_index(f, id)]));
    }
}

/// Removing the accounts of a character id leaves what a lookup by any other
/// id finds.
pub proof fn lemma_remove_keeps_others(s: Seq<StoredAccount>, id: u64, other: u64)
    requires
        other != id,
    ensures
        account_of(accounts_where(s, other_id(id)), other) == account_of(s, other),
{
    lemma_accounts_where_lookup(s, other_id(id), other);
}

proof fn lemma_accounts_where_len(s: Seq<StoredAccount>, keep: spec_fn(StoredAccount) -> bool)
    ensures
        accounts_where(s, keep).len() <= s.len(),
        accounts_where(s, keep).len() < s.len() <==> exists|k: int| 0 <= k < s.len() && !keep(s[k]),
    decreases s.len(),
{
    if s.len() > 0 {
        let t = s.drop_last();
        lemma_accounts_where_len(t, keep);
        if exists|k: int| 0 <= k < t.len() && !keep(t[k]) {
            let k = choose|k: int| 0 <= k < t.len() && !keep(t[k]);
            assert(s[k] == t[k]);
        }
        if exists|k: int| 0 <= k < s.len() && !keep(s[k]) {
            let k = choose|k: int| 0 <= k < s.len() && !keep(s[k]);
            if k < s.len() - 1 {
                assert(t[k] == s[k]);
            }
        }
    }
}

/// How the token of an account stands at a moment.
pub open spec fn expired_at(a: StoredAccount, now_ms: i64) -> bool {
    a.expires_at_ms - now_ms < 300_000
}

impl StoredAccount {
    /// Whether the access token expires within five minutes of `now_ms`.
    pub fn is_expired_at(&self, now_ms: i64) -> (r: bool)
        ensures
            r == expired_at(*self, now_ms),
    {
        (self.expires_at_ms as i128) - (now_ms as i128) < 300_000
    }

    /// Whether the access token expires within five minutes of the system clock.
    pub fn is_expired(&self) -> (r: bool)
        ensures
            exists|now_ms: i64| r == expired_at(*self, now_ms),
    {
        let now = now_millis();
        self.is_expired_at(now)
    }
}

/// What `logout` did.
#[derive(Debug, PartialEq, Eq)]
pub enum LogoutOutcome {
    /// The account with this character id was removed.
    RemovedId(u64),
    /// The accounts with this name were removed.
    RemovedName(String),
    /// All accounts were removed; holds how many there were.
    RemovedAll(usize),
}

/// Why `logout` removed nothing.
#[derive(Debug, PartialEq, Eq)]
pub enum LogoutError {
    NoSuchId(u64),
    NoSuchName(String),
}

impl AccountsStore {
    /// An empty store.
    pub fn new() -> (r: Self)
        ensures
            r.accounts@.len() == 0,
    {
        AccountsStore { accounts: Vec::new() }
    }

    /// The first account with the given character id.
    pub fn get(&self, character_id: u64) -> (r: Option<&StoredAccount>)
        ensures
            ({
                let k = account_index(self.accounts@, character_id);
                match r {
                    Some(a) => 0 <= k < self.accounts@.len() && *a == self.accounts@[k],
                    None => k == -1,
                }
            }),
    {
        let n = self.accounts.len();
        let mut i: usize = 0;
        while i < n
            invariant
                i <= n == self.accounts@.len(),
                forall|j: int| 0 <= j < i ==> self.accounts@[j].character_id != character_id,
            decreases n - i,
        {
            if self.accounts[i].character_id == character_id {
                proof {
                    lemma_account_index_char(self.accounts@, character_id, i as int);
                }
                return Some(&self.accounts[i]);
            }
            i = i + 1;
        }
        proof {
            lemma_account_index_char(self.accounts@, character_id, -1);
        }
        None
    }

    /// Keep only the accounts satisfying `keep` (given as the id or name to drop).
    fn retain_accounts(&mut self, drop_id: Option<u64>, drop_name: &Vec<char>) -> (removed: bool)
        ensures
            final(self).accounts@ == accounts_where(
                old(self).accounts@,
                match drop_id {
                    Some(id) => other_id(id),
                    None => other_name(drop_name@),
                },
            ),
            removed == (final(self).accounts@.len() < old(self).accounts@.len()),
    {
        let ghost keep = match drop_id {
            Some(id) => other_id(id),
            None => other_name(drop_name@),
        };
        let ghost orig = self.accounts@;
        let mut all: Vec<StoredAccount> = Vec::new();
        std::mem::swap(&mut all, &mut self.accounts);
        let before = all.len();
        let mut kept: Vec<StoredAccount> = Vec::new();
        for a in it: all.into_iter()
            invariant
                it.seq() == orig,
                keep == (match drop_id {
                    Some(id) => other_id(id),
                    None => other_name(drop_name@),
                }),
                kept@ == accounts_where(orig.take(it.index() as int), keep),
        {
            proof {
                let i = it.index() as int;
                assert(orig.take(i + 1).drop_last() =~= orig.take(i));
                assert(orig.take(i + 1).last() == a);
            }
            let keep_it = match drop_id {
                Some(id) => a.character_id != id,
                None => {
                    let nm = chars_of(a.character_name.as_str());
                    !chars_equal(&nm, drop_name)
                },
            };
            if keep_it {
                kept.push(a);
            }
        }
        proof {
            assert(orig.take(orig.len() as int) =~= orig);
            lemma_accounts_where_len(orig, keep);
        }
        self.accounts = kept;
        self.accounts.len() < before
    }

    /// Remove the accounts of a character id; returns whether any was removed.
    pub fn remove(&mut self, character_id: u64) -> (r: bool)
        ensures
            final(self).accounts@ == accounts_where(old(self).accounts@, other_id(character_id)),
            r <==> exists|k: int|
                0 <= k < old(self).accounts@.len() && old(self).accounts@[k].character_id
                    == character_id,
    {
        let ghost orig = self.accounts@;
        let no_name: Vec<char> = Vec::new();
        let r = self.retain_accounts(Some(character_id), &no_name);
        proof {
            lemma_accounts_where_len(orig, other_id(character_id));
        }
        r
    }

    /// Replace the first account with the same character id, or append.
    pub fn upsert(&mut self, account: StoredAccount)
        ensures
            final(self).accounts@ == upserted(old(self).accounts@, account),
    {
        let n = self.accounts.len();
        let mut i: usize = 0;
        while i < n
            invariant
                i <= n == self.accounts@.len(),
                self.accounts@ == old(self).accounts@,
                forall|j: int| 0 <= j < i ==> self.accounts@[j].character_id != account.character_id,
            decreases n - i,
        {
            if self.accounts[i].character_id == account.character_id {
                proof {
                    lemma_account_index_char(self.accounts@, account.character_id, i as int);
                }
                self.accounts.set(i, account);
                return;
            }
            i = i + 1;
        }
        proof {
            lemma_account_index_char(self.accounts@, account.character_id, -1);
        }
        self.accounts.push(account);
    }

    /// Log out by character id (when `name` is a number), by exact character
    /// name, or everyone (when `name` is absent).
    pub fn logout(&mut self, name: Option<&str>) -> (r: Result<LogoutOutcome, LogoutError>)
        ensures
            match name {
                None => r == Ok::<LogoutOutcome, LogoutError>(
                    LogoutOutcome::RemovedAll(old(self).accounts@.len() as usize),
                ) && final(self).accounts@.len() == 0,
                Some(nm) => match parse_unsigned(nm@, u64::MAX as nat) {
                    Some(id) => {
                        &&& final(self).accounts@ == accounts_where(
                            old(self).accounts@,
                            other_id(id as u64),
                        )
                        &&& if exists|k: int|
                            0 <= k < old(self).accounts@.len()
                                && old(self).accounts@[k].character_id == id {
                            r == Ok::<LogoutOutcome, LogoutError>(LogoutOutcome::RemovedId(id as u64))
                        } else {
                            r == Err::<LogoutOutcome, LogoutError>(LogoutError::NoSuchId(id as u64))
                        }
                    },
                    None => {
                        &&& final(self).accounts@ == accounts_where(
                            old(self).accounts@,
                            other_name(nm@),
                        )
                        &&& if exists|k: int|
                            0 <= k < old(self).accounts@.len()
                                && old(self).accounts@[k].character_name@ == nm@ {
                            r matches Ok(LogoutOutcome::RemovedName(s)) && s@ == nm@
                        } else {
                            r matches Err(LogoutError::NoSuchName(s)) && s@ == nm@
                        }
                    },
                },
            },
    {
        match name {
            None => {
                let count = self.accounts.len();
                self.accounts.clear();
                Ok(LogoutOutcome::RemovedAll(count))
            },
            Some(nm) => {
                let chars = chars_of(nm);
                match parse_u64_chars(chars.as_slice()) {
                    Some(id) => {
                        if self.remove(id) {
                            Ok(LogoutOutcome::RemovedId(id))
                        } else {
                            Err(LogoutError::NoSuchId(id))
                        }
                    },
                    None => {
                        let ghost orig = self.accounts@;
                        let removed = self.retain_accounts(None, &chars);
                        proof {
                            lemma_accounts_where_len(orig, other_name(nm@));
                        }
                        let owned = crate::text::string_from(chars.as_slice());
                        if removed {
                            Ok(LogoutOutcome::RemovedName(owned))
                        } else {
                            Err(LogoutError::NoSuchName(owned))
                        }
                    },
                }
            },
        }
    }
}

/// Equality of two character vectors.
pub fn chars_equal(x: &Vec<char>, y: &Vec<char>) -> (r: bool)
    ensures
        r == (x@ == y@),
{
    if x.len() != y.len() {
        proof {
            assert(x@.len() != y@.len());
        }
        return false;
    }
    let n = x.len();
    let mut i: usize = 0;
    while i < n
        invariant
            i <= n == x@.len() == y@.len(),
            forall|k: int| 0 <= k < i ==> x@[k] == y@[k],
        decreases n - i,
    {
        if x[i] != y[i] {
            proof {
                assert(x@[i as int] != y@[i as int]);
            }
            return false;
        }
        i = i + 1;
    }
    proof {
        assert(x@ =~= y@);
    }
    true
}

} // verus!
