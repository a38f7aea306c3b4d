use eve_remap::accounts::{
    find_valid_token_at, list_characters, remove_account, save_account, AccountsStore,
    LogoutError, LogoutOutcome, StoredAccount, StoredAccountEntry,
};
use eve_remap::paths::{accounts_path, tls_paths, token_dir, token_path};
use eve_remap::resolve::resolve_character;
use eve_remap::session::{
    entry_from_token_response, login_account, refreshed_account, split_words, SessionError,
};

fn entry(id: u64, name: &str, token: &str, expires_at: u64) -> StoredAccountEntry {
    StoredAccountEntry {
        character_id: id,
        character_name: name.to_string(),
        access_token: token.to_string(),
        refresh_token: String::new(),
        expires_at,
        scopes: vec![],
        created_at: 0,
    }
}

fn account(id: u64, name: &str, expires_at_ms: i64) -> StoredAccount {
    StoredAccount {
        character_id: id,
        character_name: name.to_string(),
        access_token: format!("access-{}", id),
        refresh_token: format!("refresh-{}", id),
        expires_at_ms,
        client_id: "client".to_string(),
    }
}

#[test]
fn test_accounts_roundtrip() {
    let e = StoredAccountEntry {
        character_id: 12345,
        character_name: "Test Pilot".to_string(),
        access_token: "fake_token_abc".to_string(),
        refresh_token: "fake_refresh_xyz".to_string(),
        expires_at: 1_000_000 + 3600,
        scopes: vec!["esi-skills.read_skills.v1".to_string()],
        created_at: 1_000_000,
    };
    let accounts = save_account(Vec::new(), e);
    assert_eq!(accounts.len(), 1);
    assert_eq!(accounts[0].character_id, 12345);
    assert_eq!(accounts[0].character_name, "Test Pilot");
    assert_eq!(accounts[0].access_token, "fake_token_abc");

    let (filtered, removed) = remove_account(accounts, 12345);
    assert!(removed);
    assert_eq!(filtered.len(), 0);
}

#[test]
fn test_find_valid_token_with_expired_and_fresh() {
    let now = 1_700_000_000u64;
    let accounts = vec![
        entry(999, "Expired", "old_token", now - 100),
        entry(888, "Fresh", "new_token", now + 3600),
    ];
    assert_eq!(find_valid_token_at(&accounts, now), Some(("new_token".to_string(), 888)));
}

#[test]
fn save_account_replaces_same_character() {
    let a = save_account(Vec::new(), entry(1, "A", "t1", 10));
    let a = save_account(a, entry(2, "B", "t2", 10));
    let a = save_account(a, entry(1, "A2", "t3", 10));
    assert_eq!(list_characters(&a), vec![(2, "B".to_string()), (1, "A2".to_string())]);
    let (a, removed) = remove_account(a, 7);
    assert!(!removed);
    assert_eq!(a.len(), 2);
}

#[test]
fn expired_token_is_the_fallback() {
    let accounts = vec![entry(1, "A", "t", 5), entry(2, "B", "u", 4)];
    assert_eq!(find_valid_token_at(&accounts, 5), Some(("t".to_string(), 1)));
    assert_eq!(find_valid_token_at(&Vec::new(), 5), None);
}

#[test]
fn store_upsert_get_remove_and_logout() {
    let mut store = AccountsStore::new();
    store.upsert(account(1, "Alpha Pilot", 0));
    store.upsert(account(2, "Beta", 0));
    store.upsert(account(1, "Alpha Pilot", 99));
    assert_eq!(store.accounts.len(), 2);
    assert_eq!(store.get(1).unwrap().expires_at_ms, 99);
    assert!(store.remove(2));
    assert!(store.get(2).is_none());
    assert_eq!(store.get(1).unwrap().character_name, "Alpha Pilot");
    assert!(!store.remove(2));
    assert_eq!(store.logout(Some("5")), Err(LogoutError::NoSuchId(5)));
    assert_eq!(store.logout(Some("Nobody")), Err(LogoutError::NoSuchName("Nobody".to_string())));
    assert_eq!(store.logout(Some("Alpha Pilot")), Ok(LogoutOutcome::RemovedName("Alpha Pilot".to_string())));
    store.upsert(account(3, "C", 0));
    store.upsert(account(4, "D", 0));
    assert_eq!(store.logout(Some("3")), Ok(LogoutOutcome::RemovedId(3)));
    assert_eq!(store.logout(None), Ok(LogoutOutcome::RemovedAll(1)));
    assert!(store.accounts.is_empty());
}

#[test]
fn expiry_is_five_minutes_early() {
    let a = account(1, "A", 1_000_000);
    assert!(!a.is_expired_at(1_000_000 - 300_000));
    assert!(a.is_expired_at(1_000_000 - 299_999));
    assert!(a.is_fresh_at(999_999));
    assert!(!a.is_fresh_at(1_000_000));
}

#[test]
fn resolve_character_by_id_or_name() {
    let mut store = AccountsStore::new();
    store.upsert(account(90123456, "Test Pilot", 0));
    store.upsert(account(42, "Other Person", 0));
    assert_eq!(resolve_character(&store, "42").unwrap().character_id, 42);
    assert_eq!(resolve_character(&store, "pilot").unwrap().character_id, 90123456);
    assert_eq!(resolve_character(&store, "OTHER").unwrap().character_id, 42);
    assert!(resolve_character(&store, "7").is_none());
    assert!(resolve_character(&store, "nobody").is_none());
}

#[test]
fn refresh_keeps_identity() {
    let old = account(5, "Five", 1);
    let new = refreshed_account(&old, Some("a2".to_string()), Some("r2".to_string()), Some(77)).unwrap();
    assert_eq!(new.character_id, 5);
    assert_eq!(new.character_name, "Five");
    assert_eq!(new.access_token, "a2");
    assert_eq!(new.refresh_token, "r2");
    assert_eq!(new.expires_at_ms, 77);
    assert_eq!(new.client_id, "client");
    let none = refreshed_account(&old, Some("a".to_string()), Some("r".to_string()), None).unwrap();
    assert_eq!(none.expires_at_ms, 0);
    assert_eq!(refreshed_account(&old, None, Some("r".to_string()), None).unwrap_err(), SessionError::NoAccessToken);
    assert_eq!(refreshed_account(&old, Some("a".to_string()), None, None).unwrap_err(), SessionError::NoRefreshToken);
}

#[test]
fn login_account_from_claims() {
    let acc = login_account(
        "eve-online:character:ID:90123456",
        "Test Pilot".to_string(),
        1_700_000_000,
        Some("tok".to_string()),
        None,
        "cid",
    )
    .unwrap();
    assert_eq!(acc.character_id, 90123456);
    assert_eq!(acc.expires_at_ms, 1_700_000_000_000);
    assert_eq!(acc.refresh_token, "");
    assert_eq!(acc.client_id, "cid");
    assert_eq!(
        login_account("x:y:z", "n".to_string(), 0, Some("t".to_string()), None, "c").unwrap_err(),
        SessionError::BadCharacterId
    );
    assert_eq!(
        login_account("x:1", "n".to_string(), 0, None, None, "c").unwrap_err(),
        SessionError::NoAccessToken
    );
}

#[test]
fn token_exchange_entry() {
    let e = entry_from_token_response(
        "a".to_string(),
        "r".to_string(),
        1199,
        7,
        "Seven".to_string(),
        " esi-skills.read_skills.v1  esi-characters.read_attributes.v1 ",
        1000,
    );
    assert_eq!(e.expires_at, 2199);
    assert_eq!(e.created_at, 1000);
    assert_eq!(e.scopes, vec!["esi-skills.read_skills.v1", "esi-characters.read_attributes.v1"]);
    assert_eq!(split_words("a\tb\nc  d"), vec!["a", "b", "c", "d"]);
    assert!(split_words("   ").is_empty());
}

#[test]
fn test_token_dir_exists() {
    let dir = token_dir("/home/pilot");
    assert!(dir.ends_with(".config/eve-remap") || dir.contains(".config"));
}

#[test]
fn configuration_paths() {
    assert_eq!(token_path("/home/pilot"), "/home/pilot/.config/eve-remap/tokens.json");
    assert_eq!(accounts_path("/cfg"), "/cfg/accounts.json");
    let (a, b, c) = tls_paths("/cfg");
    assert_eq!(a, "/cfg/ca.pem");
    assert_eq!(b, "/cfg/server.der");
    assert_eq!(c, "/cfg/server-key.der");
}
