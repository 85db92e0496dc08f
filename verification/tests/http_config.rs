use simple_kv::config::http::Config;
use simple_kv::config::SettingError;

fn some(s: &str) -> Option<String> {
    Some(s.to_owned())
}

#[test]
fn http_config_reads_all_four_settings() {
    let config = Config::from_settings(some("127.0.0.1"), some("8080"), some("10.0.0.2"), some("6379"))
        .expect("the settings are complete");
    assert_eq!(config.server_address, "127.0.0.1");
    assert_eq!(config.server_port, 8080);
    assert_eq!(config.kv_server_address, "10.0.0.2");
    assert_eq!(config.kv_server_port, 6379);
}

#[test]
fn http_config_names_the_first_missing_setting() {
    let e = Config::from_settings(None, None, None, None).unwrap_err();
    assert!(matches!(e, SettingError::Unset("SERVER_ADDRESS")));
    assert_eq!(e.to_string(), "SERVER_ADDRESS must be set");
    let e = Config::from_settings(some("a"), some("1"), None, some("2")).unwrap_err();
    assert!(matches!(e, SettingError::Unset("KV_SERVER_ADDRESS")));
    let e = Config::from_settings(some("a"), some("1"), some("b"), None).unwrap_err();
    assert!(matches!(e, SettingError::Unset("KV_SERVER_PORT")));
}

#[test]
fn http_config_rejects_a_port_that_is_not_a_u16() {
    let e = Config::from_settings(some("a"), some("70000"), some("b"), some("1")).unwrap_err();
    assert!(matches!(e, SettingError::InvalidPort("SERVER_PORT")));
    assert_eq!(e.to_string(), "SERVER_PORT must be a valid u16");
    let e = Config::from_settings(some("a"), some("1"), some("b"), some("port")).unwrap_err();
    assert!(matches!(e, SettingError::InvalidPort("KV_SERVER_PORT")));
}
