use relay::config::{default_acme_cache_dir, default_true, Config, ConfigError, Key, Setting};
use relay::tls::acme_plan;

fn refusal(text: &str, secret: Option<String>) -> String {
    match Config::from_toml_str(text, secret) {
        Ok(_) => panic!("settings were taken"),
        Err(e) => e.message(),
    }
}

#[test]
fn example_config_parses() {
    let cfg = Config::from_toml_str(
        r#"
        domain     = "vc.example.com"   # A レコードを向けた名前
        hmac_secret = "…"               # プラグインと同じ値 (次節)
        udp_port   = 40000              # ファイアウォールで開けた UDP

        acme_contact   = "admin@example.com"          # 期限切れ警告の宛先 (任意)
        acme_cache_dir = "/var/lib/voicerelay/acme-cache"
        "#,
        None,
    )
    .unwrap();
    assert_eq!(cfg.domain, "vc.example.com");
    assert_eq!(cfg.udp_port, 40000);
    assert!(cfg.revoke_on_death);
    assert!(!cfg.acme_staging);
    assert_eq!(cfg.acme_cache_dir, "/var/lib/voicerelay/acme-cache");
}

#[test]
fn missing_domain_is_err() {
    let err = refusal(
        r#"
        hmac_secret = "s"
        udp_port = 40000
        "#,
        None,
    );
    assert!(err.contains("domain"), "{err}");
}

#[test]
fn missing_hmac_secret_is_err() {
    let err = refusal(
        r#"
        domain = "vc.example.com"
        udp_port = 40000
        "#,
        None,
    );
    assert!(err.contains("hmac_secret"), "{err}");
}

#[test]
fn empty_hmac_secret_is_err() {
    let err = refusal(
        r#"
        domain = "vc.example.com"
        hmac_secret = ""
        udp_port = 40000
        "#,
        None,
    );
    assert!(err.contains("hmac_secret"), "{err}");
}

#[test]
fn env_overrides_hmac_secret() {
    let cfg = Config::from_toml_str(
        r#"
        domain = "vc.example.com"
        hmac_secret = "from-file"
        udp_port = 40000
        "#,
        Some("from-env".to_string()),
    )
    .unwrap();
    assert_eq!(cfg.hmac_secret, "from-env");
}

#[test]
fn env_satisfies_empty_file_secret() {
    let cfg = Config::from_toml_str(
        r#"
        domain = "vc.example.com"
        hmac_secret = ""
        udp_port = 40000
        "#,
        Some("from-env".to_string()),
    )
    .unwrap();
    assert_eq!(cfg.hmac_secret, "from-env");
}

#[test]
fn env_does_not_stand_in_for_a_missing_secret() {
    let r = Config::from_toml_str(
        r#"
        domain = "vc.example.com"
        udp_port = 40000
        "#,
        Some("from-env".to_string()),
    );
    assert!(matches!(r, Err(ConfigError::Missing(Key::HmacSecret))));
}

#[test]
fn blank_env_secret_is_err() {
    let r = Config::from_toml_str(
        r#"
        domain = "vc.example.com"
        hmac_secret = "from-file"
        udp_port = 40000
        "#,
        Some(" \u{3000}".to_string()),
    );
    assert!(matches!(r, Err(ConfigError::EmptySecret)));
}

#[test]
fn revoke_on_death_defaults_to_true() {
    let cfg = Config::from_toml_str(
        r#"
        domain = "vc.example.com"
        hmac_secret = "s"
        udp_port = 40000
        "#,
        None,
    )
    .unwrap();
    assert!(cfg.revoke_on_death);
    assert!(cfg.whitelist.is_empty());
    assert_eq!(cfg.acme_cache_dir, ".acme-cache");
}

#[test]
fn revoke_on_death_can_be_disabled() {
    let cfg = Config::from_toml_str(
        r#"
        domain = "vc.example.com"
        hmac_secret = "s"
        udp_port = 40000
        revoke_on_death = false
        "#,
        None,
    )
    .unwrap();
    assert!(!cfg.revoke_on_death);
}

#[test]
fn contact_gets_mailto_prefix() {
    let cfg = Config::from_toml_str(
        r#"
        domain = "vc.example.com"
        hmac_secret = "s"
        udp_port = 40000
        acme_contact = "admin@example.com"
        "#,
        None,
    )
    .unwrap();
    assert_eq!(cfg.acme_contacts(), vec!["mailto:admin@example.com"]);
}

#[test]
fn contact_with_mailto_is_kept() {
    let cfg = Config::from_toml_str(
        r#"
        domain = "vc.example.com"
        hmac_secret = "s"
        udp_port = 40000
        acme_contact = "mailto:admin@example.com"
        acme_staging = true
        whitelist = ["1", "2"]
        steam_api_key = "SECRET-REDACTED"
        "#,
        None,
    )
    .unwrap();
    assert_eq!(cfg.acme_contacts(), vec!["mailto:admin@example.com"]);
    assert_eq!(cfg.whitelist, vec!["1", "2"]);
    assert!(cfg.steam_api_key.is_some());
    let plan = acme_plan(&cfg);
    assert_eq!(plan.domains, vec!["vc.example.com"]);
    assert_eq!(plan.contacts, vec!["mailto:admin@example.com"]);
    assert_eq!(plan.cache_dir, ".acme-cache");
    assert!(!plan.production);
}

#[test]
fn colon_in_a_contact_is_no_mailto() {
    let cfg = Config {
        domain: "vc.example.com".into(),
        hmac_secret: "s".into(),
        steam_api_key: None,
        udp_port: 40000,
        revoke_on_death: true,
        whitelist: vec![],
        acme_contact: Some("admin@[IPv6:2001:db8::1]".into()),
        acme_staging: false,
        acme_cache_dir: ".acme-cache".into(),
    };
    assert_eq!(cfg.acme_contacts(), vec!["mailto:admin@[IPv6:2001:db8::1]"]);
}

#[test]
fn unknown_key_is_not_silently_ignored_as_missing_required() {
    let err = refusal(
        r#"
        domian = "vc.example.com"
        hmac_secret = "s"
        udp_port = 40000
        "#,
        None,
    );
    assert!(err.contains("domain"), "{err}");
}

#[test]
fn unknown_key_does_not_stop_the_start() {
    let cfg = Config::from_toml_str(
        r#"
        domain = "vc.example.com"
        hmac_secret = "s"
        udp_port = 40000
        colour = "blue"
        [table]
        x = 1
        "#,
        None,
    )
    .unwrap();
    assert_eq!(cfg.domain, "vc.example.com");
    assert!(cfg.acme_contacts().is_empty());
}

#[test]
fn every_refusal_has_its_input() {
    let syntax = Config::from_toml_str("domain = ", None);
    assert!(matches!(syntax, Err(ConfigError::Syntax(_))));
    let twice = Config::from_toml_str("domain = \"a\"\ndomain = \"b\"", None);
    assert!(matches!(twice, Err(ConfigError::Syntax(_))));
    let kind = Config::from_toml_str("domain = 1\nhmac_secret = \"s\"\nudp_port = 1", None);
    assert!(matches!(kind, Err(ConfigError::IllTyped(Key::Domain))));
    let range = Config::from_toml_str("domain = \"d\"\nhmac_secret = \"s\"\nudp_port = 65536", None);
    assert!(matches!(range, Err(ConfigError::IllTyped(Key::UdpPort))));
    let list = Config::from_toml_str(
        "domain = \"d\"\nhmac_secret = \"s\"\nudp_port = 1\nwhitelist = [\"1\", 2]",
        None,
    );
    assert!(matches!(list, Err(ConfigError::IllTyped(Key::Whitelist))));
    let port = Config::from_toml_str("domain = \"d\"\nhmac_secret = \"s\"", None);
    assert!(matches!(port, Err(ConfigError::Missing(Key::UdpPort))));
    let domain = Config::from_toml_str("domain = \" \"\nhmac_secret = \"s\"\nudp_port = 1", None);
    assert!(matches!(domain, Err(ConfigError::EmptyDomain)));
    let zero = Config::from_toml_str("domain = \"d\"\nhmac_secret = \"s\"\nudp_port = 0", None);
    assert!(matches!(zero, Err(ConfigError::ZeroUdpPort)));
    assert_eq!(
        refusal("domain = \"d\"\nhmac_secret = \"s\"\nudp_port = 0", None),
        "udp_port が 0。音声用の UDP ポートを 1 本決める"
    );
}

#[test]
fn syntax_error_is_told_in_the_words_of_the_parser() {
    let text = "domain = \"d\"\nudp_port = = 1\n";
    let wanted = toml::from_str::<toml::Table>(text).unwrap_err().to_string();
    assert!(wanted.contains("line 2, column 12"), "{wanted}");
    assert_eq!(refusal(text, None), wanted);
}

#[test]
fn unknown_table_may_hold_anything() {
    for table in [
        "[x]\n\"$__toml_private_datetime\" = 1",
        "[x]\n\"$__toml_private_datetime\" = \"no date\"",
        "[x]\n\"$serde_json::private::RawValue\" = \"{\"",
        "[x]\n\"$serde_json::private::Number\" = \"no number\"",
        "x = nan",
        "x = 1979-05-27",
        "x = [[1], {a = -inf}]",
    ] {
        let text = format!("domain = \"d\"\nhmac_secret = \"s\"\nudp_port = 1\n{table}\n");
        let cfg = Config::from_toml_str(&text, None);
        assert_eq!(cfg.map(|c| c.domain).ok(), Some("d".to_string()), "{table}");
    }
}

#[test]
fn first_wrong_value_in_the_text_is_the_one_refused() {
    let r = Config::from_toml_str("whitelist = 1\ndomain = 1\nhmac_secret = \"s\"\nudp_port = 1", None);
    assert!(matches!(r, Err(ConfigError::IllTyped(Key::Whitelist))));
    let r = Config::from_toml_str("udp_port = 1.0\ndomain = 1\nhmac_secret = \"s\"", None);
    assert!(matches!(r, Err(ConfigError::IllTyped(Key::UdpPort))));
    let r = Config::from_toml_str("domain = 1979-05-27\nhmac_secret = 1\nudp_port = 1", None);
    assert!(matches!(r, Err(ConfigError::IllTyped(Key::Domain))));
}

#[test]
fn entries_are_read_as_a_file_is() {
    let entries = vec![
        ("udp_port".to_string(), Setting::Integer(40000)),
        ("other".to_string(), Setting::Other),
        ("hmac_secret".to_string(), Setting::Text("s".to_string())),
        ("domain".to_string(), Setting::Text("d".to_string())),
        ("whitelist".to_string(), Setting::List(vec![Some("7".to_string())])),
        ("acme_staging".to_string(), Setting::Flag(true)),
    ];
    let cfg = Config::from_entries(entries, None).unwrap();
    assert_eq!(cfg.domain, "d");
    assert_eq!(cfg.whitelist, vec!["7"]);
    assert!(cfg.acme_staging);
    assert!(cfg.validate().is_ok());
    assert!(default_true());
    assert_eq!(default_acme_cache_dir(), ".acme-cache");
}
