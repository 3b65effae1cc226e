use lnk_cli::config::Config;
use lnk_cli::document::ConfigDoc;
use lnk_cli::errors::ConfigError;

#[test]
fn rendered_text_is_exactly_canonical() {
    let mut config = Config::load(None).unwrap();
    config.set("user", "alice").unwrap();
    config.set("api.url", "https://example.com").unwrap();
    assert_eq!(
        config.render(),
        "user = \"alice\"\n[api]\nurl = \"https://example.com\"\n"
    );
}

#[test]
fn parse_reads_canonical_text() {
    let doc = ConfigDoc::parse_text("user = \"alice\"\n[api]\nurl = \"https://example.com\"\n")
        .unwrap();
    assert_eq!(doc.get("user"), Some("alice".to_string()));
    assert_eq!(doc.get("api.url"), Some("https://example.com".to_string()));
}

#[test]
fn blank_lines_and_comments_are_skipped() {
    let text = "# a comment\n\nuser = \"alice\"\n\n[api]\n# inner\nurl = \"u\"\n";
    let doc = ConfigDoc::parse_text(text).unwrap();
    assert_eq!(doc.get("user"), Some("alice".to_string()));
    assert_eq!(doc.get("api.url"), Some("u".to_string()));
}

#[test]
fn unparseable_text_is_config_corrupt() {
    assert_eq!(
        ConfigDoc::parse_text("this is not a config").unwrap_err(),
        ConfigError::ConfigCorrupt
    );
    assert_eq!(
        ConfigDoc::parse_text("key = unquoted\n").unwrap_err(),
        ConfigError::ConfigCorrupt
    );
    assert_eq!(
        ConfigDoc::parse_text("key = \"unterminated\n").unwrap_err(),
        ConfigError::ConfigCorrupt
    );
    assert_eq!(
        ConfigDoc::parse_text("[section\n").unwrap_err(),
        ConfigError::ConfigCorrupt
    );
}

#[test]
fn duplicate_names_are_config_corrupt() {
    assert_eq!(
        ConfigDoc::parse_text("a = \"1\"\na = \"2\"\n").unwrap_err(),
        ConfigError::ConfigCorrupt
    );
    assert_eq!(
        ConfigDoc::parse_text("[s]\n[s]\n").unwrap_err(),
        ConfigError::ConfigCorrupt
    );
    assert_eq!(
        ConfigDoc::parse_text("a = \"1\"\n[a]\n").unwrap_err(),
        ConfigError::ConfigCorrupt
    );
}

#[test]
fn values_with_quotes_backslashes_and_newlines_round_trip() {
    let mut config = Config::load(None).unwrap();
    config.set("v", "say \"hi\"\\now\nnext").unwrap();
    let text = config.render();
    let reloaded = Config::load(Some(text.as_str())).unwrap();
    assert_eq!(reloaded.get("v"), Some("say \"hi\"\\now\nnext".to_string()));
}

#[test]
fn odd_keys_are_quoted_and_round_trip() {
    let mut config = Config::load(None).unwrap();
    config.set("key with spaces", "v1").unwrap();
    config.set("sec tion.sub key", "v2").unwrap();
    let text = config.render();
    let reloaded = Config::load(Some(text.as_str())).unwrap();
    assert_eq!(reloaded.get("key with spaces"), Some("v1".to_string()));
    assert_eq!(reloaded.get("sec tion.sub key"), Some("v2".to_string()));
}

#[test]
fn empty_text_is_empty_document() {
    let doc = ConfigDoc::parse_text("").unwrap();
    assert_eq!(doc.get("anything"), None);
    assert_eq!(doc.render(), "");
}

#[test]
fn empty_string_value_is_present_not_absent() {
    let mut config = Config::load(None).unwrap();
    config.set("empty", "").unwrap();
    let text = config.render();
    let reloaded = Config::load(Some(text.as_str())).unwrap();
    assert_eq!(reloaded.get("empty"), Some(String::new()));
}

#[test]
fn missing_final_newline_still_parses() {
    let doc = ConfigDoc::parse_text("a = \"1\"").unwrap();
    assert_eq!(doc.get("a"), Some("1".to_string()));
}

#[test]
fn reader_accepts_tab_and_cr_escapes() {
    let doc = ConfigDoc::parse_text("a = \"x\\ty\\rz\"\n").unwrap();
    assert_eq!(doc.get("a"), Some("x\ty\rz".to_string()));
}

#[test]
fn raw_tab_in_value_round_trips() {
    let mut config = Config::load(None).unwrap();
    config.set("t", "a\tb").unwrap();
    let text = config.render();
    let reloaded = Config::load(Some(text.as_str())).unwrap();
    assert_eq!(reloaded.get("t"), Some("a\tb".to_string()));
}
