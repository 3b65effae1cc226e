use lnk_cli::record::{decode_link, decode_user, decode_user_with_api_key, LinkWire, UserWire,
    UserWithApiKeyWire};
use lnk_cli::secret::{resolve_clear, resolve_fetch, MemorySecretStore, VaultClear, VaultFetch};
use lnk_cli::errors::SecretError;

fn link_wire(created_at: &str, updated_at: &str) -> LinkWire {
    LinkWire {
        id: 7,
        url: "https://example.com/a".to_string(),
        title: Some("a title".to_string()),
        description: None,
        created_at: created_at.to_string(),
        updated_at: updated_at.to_string(),
    }
}

#[test]
fn decode_link_normalizes_both_dates() {
    let link = decode_link(link_wire("2025-11-20T05:28:45.444128", "2025-11-20T05:28:45Z"))
        .unwrap();
    assert_eq!(link.id, 7);
    assert_eq!(link.url, "https://example.com/a");
    assert_eq!(link.title, Some("a title".to_string()));
    assert_eq!(link.description, None);
    assert_eq!(link.created_at.secs, 1763616525);
    assert_eq!(link.created_at.nanos, 444_128_000);
    assert_eq!(link.updated_at.secs, 1763616525);
}

#[test]
fn decode_is_atomic_on_bad_created_at() {
    let err = decode_link(link_wire("garbage", "2025-11-20T05:28:45Z")).unwrap_err();
    assert_eq!(err.field, "created_at");
    assert_eq!(err.raw, "garbage");
}

#[test]
fn decode_is_atomic_on_bad_updated_at() {
    let err = decode_link(link_wire("2025-11-20T05:28:45Z", "later")).unwrap_err();
    assert_eq!(err.field, "updated_at");
    assert_eq!(err.raw, "later");
}

#[test]
fn empty_title_is_present_and_distinct_from_absent() {
    let mut wire = link_wire("2025-11-20T05:28:45Z", "2025-11-20T05:28:45Z");
    wire.title = Some(String::new());
    let link = decode_link(wire).unwrap();
    assert_eq!(link.title, Some(String::new()));
    assert_ne!(link.title, None);
}

#[test]
fn decode_user_and_registration_payloads() {
    let user = decode_user(UserWire {
        id: "u-1".to_string(),
        email: "a@example.com".to_string(),
        created_at: "2025-11-20T05:28:45".to_string(),
        updated_at: "2025-11-20T05:28:45".to_string(),
    })
    .unwrap();
    assert_eq!(user.email, "a@example.com");
    assert_eq!(user.created_at.secs, 1763616525);

    let reg = decode_user_with_api_key(UserWithApiKeyWire {
        id: "u-2".to_string(),
        email: "b@example.com".to_string(),
        api_key: "k-123".to_string(),
        created_at: "2025-11-20T05:28:45Z".to_string(),
        updated_at: "nope".to_string(),
    });
    let err = reg.unwrap_err();
    assert_eq!(err.field, "updated_at");
    assert_eq!(err.raw, "nope");
}

#[test]
fn memory_secret_absence_is_none_not_error() {
    let store = MemorySecretStore::new();
    assert_eq!(store.get_secret().unwrap(), None);
}

#[test]
fn memory_secret_set_then_get() {
    let mut store = MemorySecretStore::new();
    store.set_secret("key-1").unwrap();
    assert_eq!(store.get_secret().unwrap(), Some("key-1".to_string()));
    store.set_secret("key-2").unwrap();
    assert_eq!(store.get_secret().unwrap(), Some("key-2".to_string()));
}

#[test]
fn delete_secret_is_idempotent() {
    let mut store = MemorySecretStore::new();
    store.set_secret("key-1").unwrap();
    store.delete_secret().unwrap();
    assert_eq!(store.get_secret().unwrap(), None);
    store.delete_secret().unwrap();
    assert_eq!(store.get_secret().unwrap(), None);
}

#[test]
fn vault_outcomes_resolve_as_specified() {
    assert_eq!(
        resolve_fetch(VaultFetch::Found("s".to_string())).unwrap(),
        Some("s".to_string())
    );
    assert_eq!(resolve_fetch(VaultFetch::Absent).unwrap(), None);
    let err = resolve_fetch(VaultFetch::Unavailable("no daemon".to_string())).unwrap_err();
    assert_eq!(err, SecretError::SecretStoreUnavailable("no daemon".to_string()));

    assert!(resolve_clear(VaultClear::Cleared).is_ok());
    assert!(resolve_clear(VaultClear::Absent).is_ok());
    assert!(resolve_clear(VaultClear::Unavailable("locked".to_string())).is_err());
}
