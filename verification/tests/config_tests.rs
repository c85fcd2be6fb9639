use agentik::api::ProviderInput;
use agentik::config::{agentik_dir, daemon_json_path, parse_u16, state_dir, ServerConfig};

#[test]
fn server_config_defaults() {
    let c = ServerConfig::default();
    assert_eq!(c.host, "0.0.0.0");
    assert_eq!(c.port, 3000);
    assert_eq!(c.to_string(), "0.0.0.0:3000");
}

#[test]
fn server_config_from_environment_values() {
    let c = ServerConfig::from_env(Some("127.0.0.1".to_string()), Some("8080".to_string()));
    assert_eq!(c.to_string(), "127.0.0.1:8080");
    let c = ServerConfig::from_env(None, Some("not a port".to_string()));
    assert_eq!((c.host.as_str(), c.port), ("0.0.0.0", 3000));
    let c = ServerConfig::from_env(Some(String::new()), Some("70000".to_string()));
    assert_eq!((c.host.as_str(), c.port), ("", 3000));
}

#[test]
fn port_parsing_follows_u16_from_str() {
    assert_eq!(parse_u16("0"), Some(0));
    assert_eq!(parse_u16("65535"), Some(65535));
    assert_eq!(parse_u16("65536"), None);
    assert_eq!(parse_u16("+42"), Some(42));
    assert_eq!(parse_u16("007"), Some(7));
    assert_eq!(parse_u16("+"), None);
    assert_eq!(parse_u16(""), None);
    assert_eq!(parse_u16("-1"), None);
    assert_eq!(parse_u16(" 1"), None);
    for s in ["0", "65535", "+42", "007", "", "+", "-1", "1 ", "99999"] {
        assert_eq!(parse_u16(s), s.parse::<u16>().ok(), "{s}");
    }
}

#[test]
fn state_dir_prefers_xdg() {
    assert_eq!(state_dir(Some("/x/state".to_string()), Some("/home/u".to_string())).as_deref(), Some("/x/state"));
    assert_eq!(state_dir(Some(String::new()), Some("/home/u".to_string())).as_deref(), Some("/home/u/.local/state"));
    assert_eq!(state_dir(None, Some("/home/u/".to_string())).as_deref(), Some("/home/u/.local/state"));
    assert_eq!(state_dir(None, None), None);
}

#[test]
fn discovery_paths() {
    assert_eq!(agentik_dir(Some("/s".to_string())).as_deref(), Some("/s/agentik"));
    assert_eq!(daemon_json_path(Some("/s".to_string())).as_deref(), Some("/s/agentik/daemon.json"));
    assert_eq!(daemon_json_path(None), None);
    // Joined as `PathBuf` joins relative components.
    let base = std::path::PathBuf::from("/home/u").join(".local").join("state");
    assert_eq!(state_dir(None, Some("/home/u".to_string())).unwrap(), base.to_str().unwrap());
}

#[test]
fn blank_provider_form() {
    let p = ProviderInput::empty();
    assert_eq!(p.name, "");
    assert_eq!(p.provider_type, "Anthropic");
    assert_eq!(p.base_url, "");
    assert_eq!(p.api_key, "");
    assert_eq!(p.auth_method, "Anthropic");
}

#[test]
fn port_text_reads_back() {
    for p in [0u16, 1, 80, 3000, 65535] {
        assert_eq!(parse_u16(&p.to_string()), Some(p));
        let c = ServerConfig { host: "h".to_string(), port: p };
        assert_eq!(c.to_string(), format!("h:{p}"));
    }
}
