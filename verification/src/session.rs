//! Accounts from the SSO's answers: after a login, after a token refresh, and
//! after a PKCE token exchange.
use vstd::prelude::*;
use crate::accounts::{StoredAccount, StoredAccountEntry};
use crate::resolve::subject_id;
use crate::text::{chars_of, is_whitespace, is_ws, parse_u64_chars, split_chars, string_from};

verus! {

/// Why an SSO answer gives no account.
#[derive(Debug, Clone, PartialEq, Eq)]
pub enum SessionError {
    /// The `sub` claim does not end in a character id.
    BadCharacterId,
    /// No access token came back.
    NoAccessToken,
    /// No refresh token came back.
    NoRefreshToken,
}

/// The access token is still good at `now_ms`: it expires strictly later.
pub open spec fn token_fresh(a: StoredAccount, now_ms: i64) -> bool {
    a.expires_at_ms > now_ms
}

impl StoredAccount {
    /// Whether the access token can be used as it is at `now_ms`, without a
    /// refresh.
    pub fn is_fresh_at(&self, now_ms: i64) -> (r: bool)
        ensures
            r == token_fresh(*self, now_ms),
    {
        self.expires_at_ms > now_ms
    }
}

/// The account after a token refresh: the old identity with the new tokens and
/// expiry (zero when none came back).
pub fn refreshed_account(
    old: &StoredAccount,
    access_token: Option<String>,
    refresh_token: Option<String>,
    access_expiration_ms: Option<i64>,
) -> (r: Result<StoredAccount, SessionError>)
    ensures
        match (access_token, refresh_token) {
            (None, _) => r == Err::<StoredAccount, SessionError>(SessionError::NoAccessToken),
            (Some(_), None) => r == Err::<StoredAccount, SessionError>(
                SessionError::NoRefreshToken,
            ),
            (Some(a), Some(f)) => r matches Ok(acc) && acc.character_id == old.character_id
                && acc.character_name@ == old.character_name@ && acc.access_token@ == a@
                && acc.refresh_token@ == f@ && acc.client_id@ == old.client_id@
                && acc.expires_at_ms == match access_expiration_ms {
                Some(ms) => ms,
                None => 0,
            },
        },
{
    let access = match access_token {
        Some(a) => a,
        None => return Err(SessionError::NoAccessToken),
    };
    let refresh = match refresh_token {
        Some(f) => f,
        None => return Err(SessionError::NoRefreshToken),
    };
    let expires_at_ms = match access_expiration_ms {
        Some(ms) => ms,
        None => 0,
    };
    Ok(StoredAccount {
        character_id: old.character_id,
        character_name: old.character_name.clone(),
        access_token: access,
        refresh_token: refresh,
        expires_at_ms,
        client_id: old.client_id.clone(),
    })
}

/// The account a login gives from the token claims (`sub`, `name`, `exp` in
/// seconds) and the tokens: the character id is the last `:`-separated piece
/// of `sub`; a missing refresh token is stored empty.
pub fn login_account(
    sub: &str,
    name: String,
    exp: i64,
    access_token: Option<String>,
    refresh_token: Option<String>,
    client_id: &str,
) -> (r: Result<StoredAccount, SessionError>)
    requires
        -9223372036854775 <= exp <= 9223372036854775,
    ensures
        match subject_id(sub@) {
            None => r == Err::<StoredAccount, SessionError>(SessionError::BadCharacterId),
            Some(id) => match access_token {
                None => r == Err::<StoredAccount, SessionError>(SessionError::NoAccessToken),
                Some(a) => r matches Ok(acc) && acc.character_id == id && acc.character_name@
                    == name@ && acc.access_token@ == a@ && acc.refresh_token@ == match refresh_token {
                    Some(f) => f@,
                    None => Seq::<char>::empty(),
                } && acc.expires_at_ms == exp * 1000 && acc.client_id@ == client_id@,
            },
        },
{
    let s = chars_of(sub);
    let pieces = split_chars(s.as_slice(), ':');
    proof {
        crate::text::lemma_split_nonempty(sub@, ':');
    }
    let last = &pieces[pieces.len() - 1];
    let character_id = match parse_u64_chars(last.as_slice()) {
        Some(v) => v,
        None => return Err(SessionError::BadCharacterId),
    };
    let access = match access_token {
        Some(a) => a,
        None => return Err(SessionError::NoAccessToken),
    };
    let refresh = match refresh_token {
        Some(f) => f,
        None => String::new(),
    };
    Ok(StoredAccount {
        character_id,
        character_name: name,
        access_token: access,
        refresh_token: refresh,
        expires_at_ms: exp * 1000,
        client_id: string_from(chars_of(client_id).as_slice()),
    })
}

// ---------------------------------------------------------------------------
// PKCE token exchange
// ---------------------------------------------------------------------------

/// `str::split_whitespace`: the maximal runs of non-whitespace characters.
pub open spec fn words(s: Seq<char>) -> Seq<Seq<char>>
    decreases s.len(),
{
    if s.len() == 0 {
        Seq::empty()
    } else {
        let w = words(s.drop_last());
        let c = s.last();
        if is_ws(c) {
            w
        } else if s.len() >= 2 && !is_ws(s[s.len() - 2]) && w.len() > 0 {
            w.update(w.len() - 1, w.last().push(c))
        } else {
            w.push(seq![c])
        }
    }
}

pub open spec fn string_views(v: Seq<String>) -> Seq<Seq<char>> {
    v.map_values(|s: String| s@)
}

/// The words of a text, in order.
pub fn split_words(text: &str) -> (r: Vec<String>)
    ensures
        string_views(r@) == words(text@),
{
    let c = chars_of(text);
    let n = c.len();
    let mut out: Vec<String> = Vec::new();
    let mut cur: Vec<char> = Vec::new();
    let mut i: usize = 0;
    // `out` holds the finished words; `cur` the word being read, if any.
    while i < n
        invariant
            i <= n == c@.len(),
            c@ == text@,
            ({
                let w = words(c@.take(i as int));
                if cur@.len() > 0 {
                    w.len() > 0 && string_views(out@) == w.drop_last() && cur@ == w.last()
                } else {
                    string_views(out@) == w
                }
            }),
            cur@.len() > 0 ==> i > 0 && !is_ws(c@[i - 1]),
            cur@.len() == 0 && i > 0 ==> is_ws(c@[i - 1]),
        decreases n - i,
    {
        let ch = c[i];
        let ghost t = c@.take(i + 1);
        proof {
            assert(t.drop_last() =~= c@.take(i as int));
            assert(t.last() == ch);
        }
        if is_whitespace(ch) {
            if cur.len() > 0 {
                let ghost w = words(c@.take(i as int));
                let word = string_from(cur.as_slice());
                out.push(word);
                cur = Vec::new();
                proof {
                    assert(string_views(out@) =~= w.drop_last().push(w.last()));
                    assert(w.drop_last().push(w.last()) =~= w);
                }
            }
        } else {
            let ghost w = words(c@.take(i as int));
            let ghost old_cur = cur@;
            proof {
                if cur@.len() > 0 {
                    assert(t.len() >= 2 && t[t.len() - 2] == c@[i - 1]);
                } else if i > 0 {
                    assert(t[t.len() - 2] == c@[i - 1]);
                }
            }
            cur.push(ch);
            proof {
                if old_cur.len() > 0 {
                    let w2 = words(t);
                    assert(w2 == w.update(w.len() - 1, w.last().push(ch)));
                    assert(w2.drop_last() =~= w.drop_last());
                } else {
                    let w2 = words(t);
                    assert(w2.drop_last() =~= w);
                }
            }
        }
        i = i + 1;
    }
    proof {
        assert(c@.take(n as int) =~= c@);
    }
    if cur.len() > 0 {
        let ghost w = words(c@);
        let word = string_from(cur.as_slice());
        out.push(word);
        proof {
            assert(string_views(out@) =~= w.drop_last().push(w.last()));
            assert(w.drop_last().push(w.last()) =~= w);
        }
    }
    out
}

/// The account entry a PKCE token exchange gives: it expires `expires_in`
/// seconds after `now`, with the scopes the space-separated `scope` lists.
pub fn entry_from_token_response(
    access_token: String,
    refresh_token: String,
    expires_in: u32,
    owner_character_id: u64,
    character_name: String,
    scope: &str,
    now: u64,
) -> (r: StoredAccountEntry)
    requires
        now + expires_in <= u64::MAX,
    ensures
        r.character_id == owner_character_id,
        r.character_name == character_name,
        r.access_token == access_token,
        r.refresh_token == refresh_token,
        r.expires_at == now + expires_in,
        string_views(r.scopes@) == words(scope@),
        r.created_at == now,
{
    StoredAccountEntry {
        character_id: owner_character_id,
        character_name,
        access_token,
        refresh_token,
        expires_at: now + expires_in as u64,
        scopes: split_words(scope),
        created_at: now,
    }
}

} // verus!
