use lnk_cli::cli::{mask_api_key, normalize_base_url, Cli};
use lnk_cli::config::Config;

#[test]
fn resolve_api_url_prefers_flag_then_config_then_default() {
    let mut config = Config::load(None).unwrap();
    config.set("api.url", "https://configured.example").unwrap();
    let text = config.render();
    let loaded = Config::load(Some(text.as_str())).unwrap();

    assert_eq!(
        Cli::resolve_api_url(Some("https://flag.example".to_string()), &loaded),
        "https://flag.example"
    );
    assert_eq!(
        Cli::resolve_api_url(None, &loaded),
        "https://configured.example"
    );
    let empty = Config::load(None).unwrap();
    assert_eq!(Cli::resolve_api_url(None, &empty), "http://localhost:8000");
}

#[test]
fn mask_api_key_keeps_only_the_ends() {
    assert_eq!(mask_api_key("abcdefghijklmnop"), "abcdefgh...mnop");
    assert_eq!(mask_api_key("abc"), "abc...abc");
    assert_eq!(mask_api_key(""), "...");
    assert_eq!(mask_api_key("abcdefgh"), "abcdefgh...efgh");
}

#[test]
fn normalize_base_url_trims_trailing_slashes() {
    assert_eq!(normalize_base_url("https://example.com/"), "https://example.com");
    assert_eq!(normalize_base_url("https://example.com///"), "https://example.com");
    assert_eq!(normalize_base_url("https://example.com"), "https://example.com");
    assert_eq!(normalize_base_url(""), "");
}
