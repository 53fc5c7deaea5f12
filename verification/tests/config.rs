use rust_docs_bot::config::{Config, ConfigError};

fn s(v: &str) -> Option<String> {
    Some(v.to_owned())
}

#[test]
fn token_is_required() {
    let r = Config::from_vars(None, s("1"), None, None, None, None, None);
    assert_eq!(r.err(), Some(ConfigError::MissingDiscordToken));
    assert_eq!(ConfigError::MissingDiscordToken.message(), "DISCORD_TOKEN must be set");
}

#[test]
fn defaults_apply() {
    let c = Config::from_vars(s("tok"), None, None, None, None, None, None).unwrap();
    assert_eq!(c.discord_token, "tok");
    assert_eq!(c.application_id, None);
    assert_eq!(c.ai_base_url, "https://api.openai.com/v1");
    assert_eq!(c.ai_api_key, "");
    assert_eq!(c.ai_model, "gpt-4o-mini");
    assert_eq!(c.context7_api_key, None);
    assert!(!c.preload_docs);
    assert_eq!(Config::http_timeout(), 20);
}

#[test]
fn values_are_read() {
    let c = Config::from_vars(
        s("tok"),
        s("123456789012345678"),
        s("http://localhost:11434/v1"),
        s("key"),
        s("llama3"),
        s("ctx"),
        s("TRUE"),
    )
    .unwrap();
    assert_eq!(c.application_id, Some(123456789012345678));
    assert_eq!(c.ai_base_url, "http://localhost:11434/v1");
    assert_eq!(c.ai_api_key, "key");
    assert_eq!(c.ai_model, "llama3");
    assert_eq!(c.context7_api_key.as_deref(), Some("ctx"));
    assert!(c.preload_docs);
}

#[test]
fn odd_values_count_as_unset() {
    let c = Config::from_vars(s("tok"), s("12ab"), None, None, None, s(""), s("yes")).unwrap();
    assert_eq!(c.application_id, None);
    assert_eq!(c.context7_api_key, None);
    assert!(!c.preload_docs);
    let c = Config::from_vars(s("tok"), s("18446744073709551616"), None, None, None, None, s("1"))
        .unwrap();
    assert_eq!(c.application_id, None);
    assert!(c.preload_docs);
    let c = Config::from_vars(s("tok"), s("+42"), None, None, None, None, None).unwrap();
    assert_eq!(c.application_id, Some(42));
    let c = Config::from_vars(s("tok"), s("+"), None, None, None, None, None).unwrap();
    assert_eq!(c.application_id, None);
}
