use lnk_cli::config::Config;
use lnk_cli::errors::ConfigError;

#[test]
fn fresh_store_get_is_none_not_error() {
    let config = Config::load(None).unwrap();
    assert_eq!(config.get("nonexistent.key"), None);
    assert_eq!(config.get("nonexistent"), None);
    assert_eq!(config.api_url, None);
}

#[test]
fn set_then_get_returns_value() {
    let mut config = Config::load(None).unwrap();
    config.set("api.url", "https://example.com").unwrap();
    assert_eq!(config.get("api.url"), Some("https://example.com".to_string()));
}

#[test]
fn dotted_key_isolation() {
    let mut config = Config::load(None).unwrap();
    config.set("api.url", "X").unwrap();
    config.set("other", "Y").unwrap();
    assert_eq!(config.get("api.url"), Some("X".to_string()));
    assert_eq!(config.get("other"), Some("Y".to_string()));
}

#[test]
fn structure_conflict_fails_and_leaves_store_unchanged() {
    let mut config = Config::load(None).unwrap();
    config.set("foo", "bar").unwrap();
    let before = config.render();
    let err = config.set("foo.baz", "qux").unwrap_err();
    assert_eq!(err, ConfigError::ConfigStructureInvalid);
    assert_eq!(config.render(), before);
    assert_eq!(config.get("foo"), Some("bar".to_string()));
    assert_eq!(config.get("foo.baz"), None);
}

#[test]
fn round_trip_through_text_keeps_last_values() {
    let mut config = Config::load(None).unwrap();
    config.set("user", "alice").unwrap();
    config.set("api.url", "https://one.example").unwrap();
    config.set("api.url", "https://two.example").unwrap();
    config.set("api.token_name", "primary").unwrap();
    let text = config.render();
    let reloaded = Config::load(Some(text.as_str())).unwrap();
    assert_eq!(reloaded.get("user"), Some("alice".to_string()));
    assert_eq!(reloaded.get("api.url"), Some("https://two.example".to_string()));
    assert_eq!(reloaded.get("api.token_name"), Some("primary".to_string()));
    assert_eq!(reloaded.api_url, Some("https://two.example".to_string()));
}

#[test]
fn values_from_prior_sessions_survive_unrelated_writes() {
    let mut first = Config::load(None).unwrap();
    first.set("api.url", "https://kept.example").unwrap();
    let saved = first.render();

    let mut second = Config::load(Some(saved.as_str())).unwrap();
    second.set("display.width", "80").unwrap();
    let saved_again = second.render();

    let third = Config::load(Some(saved_again.as_str())).unwrap();
    assert_eq!(third.get("api.url"), Some("https://kept.example".to_string()));
    assert_eq!(third.get("display.width"), Some("80".to_string()));
}

#[test]
fn bare_set_overwrites_section_of_same_name() {
    let mut config = Config::load(None).unwrap();
    config.set("api.url", "X").unwrap();
    config.set("api", "plain").unwrap();
    assert_eq!(config.get("api"), Some("plain".to_string()));
    assert_eq!(config.get("api.url"), None);
}

#[test]
fn subkey_keeps_dots_past_the_first() {
    let mut config = Config::load(None).unwrap();
    config.set("a.b.c", "v").unwrap();
    assert_eq!(config.get("a.b.c"), Some("v".to_string()));
    assert_eq!(config.get("a.b"), None);
    let text = config.render();
    let reloaded = Config::load(Some(text.as_str())).unwrap();
    assert_eq!(reloaded.get("a.b.c"), Some("v".to_string()));
}

#[test]
fn get_of_section_name_is_none() {
    let mut config = Config::load(None).unwrap();
    config.set("api.url", "X").unwrap();
    assert_eq!(config.get("api"), None);
}

#[test]
fn last_write_wins_per_path() {
    let mut config = Config::load(None).unwrap();
    config.set("k", "1").unwrap();
    config.set("k", "2").unwrap();
    assert_eq!(config.get("k"), Some("2".to_string()));
}
