use clipx::cli::SyncOptions;
use clipx::config::{
    config_path, validate_connect_address, ConfigError, DesktopConfig, DesktopRole,
};

#[test]
fn config_round_trip_preserves_listen_role() {
    let config = DesktopConfig::from_form(DesktopRole::Listen, "0.0.0.0:45876", true).unwrap();
    assert_eq!(DesktopConfig::decode(&config.encode(), true).unwrap(), config);
}

#[test]
fn config_round_trip_preserves_connect_hostname() {
    let config = DesktopConfig::from_form(DesktopRole::Connect, "mac.local:45876", false).unwrap();
    assert_eq!(
        DesktopConfig::decode(&config.encode(), false).unwrap(),
        config
    );
}

#[test]
fn config_rejects_invalid_addresses() {
    assert!(DesktopConfig::from_form(DesktopRole::Listen, "localhost", false).is_err());
    assert!(DesktopConfig::from_form(DesktopRole::Connect, "localhost", false).is_err());
    assert!(DesktopConfig::from_form(DesktopRole::Connect, "host:not-a-port", false).is_err());
}

#[test]
fn forms_are_trimmed() {
    let config =
        DesktopConfig::from_form(DesktopRole::Connect, " \u{3000}host:80\t\n", false).unwrap();
    assert_eq!(config.address, "host:80");
    assert_eq!(config.encode(), "role=connect\naddress=host:80\n");
}

#[test]
fn each_error_of_a_form() {
    let form = |role, text| DesktopConfig::from_form(role, text, false).unwrap_err();
    assert_eq!(form(DesktopRole::Connect, "  "), ConfigError::InvalidAddress);
    assert_eq!(
        form(DesktopRole::Connect, "a=b:80"),
        ConfigError::InvalidAddress
    );
    assert_eq!(
        form(DesktopRole::Connect, "a\nb:80"),
        ConfigError::InvalidAddress
    );
    assert_eq!(
        form(DesktopRole::Connect, "a\rb:80"),
        ConfigError::InvalidAddress
    );
    assert_eq!(form(DesktopRole::Listen, "x:80"), ConfigError::InvalidListen);
    assert_eq!(form(DesktopRole::Connect, "host"), ConfigError::MissingPort);
    assert_eq!(form(DesktopRole::Connect, ":80"), ConfigError::InvalidConnect);
}

#[test]
fn ports_are_read_as_numbers_of_sixteen_bits() {
    for port in ["0", "80", "65535", "+80", "00080", "0000000065535"] {
        assert_eq!(port.parse::<u16>().is_ok(), true);
        assert!(validate_connect_address(&format!("h:{port}")).is_ok());
    }
    for port in ["", "+", "-1", "-0", "65536", "99999999999", "8o", " 80", "++1", "٣"] {
        assert_eq!(port.parse::<u16>().is_ok(), false);
        assert_eq!(
            validate_connect_address(&format!("h:{port}")),
            Err(ConfigError::InvalidConnect)
        );
    }
    assert!(validate_connect_address("[::1]:80").is_ok());
    assert!(validate_connect_address("a:b:80").is_ok());
}

#[test]
fn files_may_hold_comments_and_blank_lines() {
    let contents = "# clipx\r\n\r\n  role=connect  \nrole=listen\n\taddress= 0.0.0.0:1 ";
    let config = DesktopConfig::decode(contents, true).unwrap();
    assert_eq!(config.role, DesktopRole::Listen);
    assert_eq!(config.address, "0.0.0.0:1");
    let (role, address) = DesktopConfig::decode_fields(contents).unwrap();
    assert_eq!(role, DesktopRole::Listen);
    assert_eq!(address, " 0.0.0.0:1");
}

#[test]
fn each_error_of_a_file() {
    let file = |text| DesktopConfig::decode(text, true).unwrap_err();
    assert_eq!(file("role"), ConfigError::Format);
    assert_eq!(file("role=server"), ConfigError::InvalidRole);
    assert_eq!(file("role =listen"), ConfigError::UnknownField);
    assert_eq!(file("port=1"), ConfigError::UnknownField);
    assert_eq!(file(""), ConfigError::MissingRole);
    assert_eq!(file("address=a:1"), ConfigError::MissingRole);
    assert_eq!(file("role=listen"), ConfigError::MissingAddress);
    assert_eq!(
        file("role=listen\naddress="),
        ConfigError::InvalidAddress
    );
    assert_eq!(
        file("role=connect\naddress=a=b:1"),
        ConfigError::InvalidAddress
    );
}

#[test]
fn configurations_run_from_the_tray() {
    let listen = DesktopConfig::from_form(DesktopRole::Listen, "0.0.0.0:45876", true).unwrap();
    assert_eq!(
        listen.sync_options(),
        SyncOptions {
            listen: Some("0.0.0.0:45876".to_string()),
            connect: None,
            tray: true,
        }
    );
    let connect = DesktopConfig::from_form(DesktopRole::Connect, "h:1", false).unwrap();
    assert_eq!(
        connect.sync_options(),
        SyncOptions {
            listen: None,
            connect: Some("h:1".to_string()),
            tray: true,
        }
    );
}

#[test]
fn configurations_lie_where_the_environment_says() {
    let path = |config_home: Option<&str>, home: Option<&str>| {
        config_path(
            config_home.map(|value| value.as_bytes().to_vec()),
            home.map(|value| value.as_bytes().to_vec()),
        )
        .map(|path| String::from_utf8(path).unwrap())
    };
    let at = |text: &str| Some(text.to_string());
    assert_eq!(path(Some("/xdg"), Some("/home/a")), at("/xdg/clipx/config"));
    assert_eq!(path(Some("/xdg/"), None), at("/xdg/clipx/config"));
    assert_eq!(
        path(None, Some("/home/a")),
        at("/home/a/.config/clipx/config")
    );
    assert_eq!(
        path(Some(""), Some("/home/a")),
        at("/home/a/.config/clipx/config")
    );
    assert_eq!(path(None, Some("")), at(".config/clipx/config"));
    assert_eq!(path(Some(""), None), None);
    assert_eq!(path(None, None), None);
}
