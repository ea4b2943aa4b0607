use clipx::cli::{is_help, parse, usage, Argument, CliError, Command, SyncOptions};

fn argument(raw: &[u8], socket_address: bool) -> Argument {
    Argument {
        raw: raw.to_vec(),
        socket_address,
    }
}

/// Arguments of which only these are socket addresses.
fn strings(values: &[&str]) -> Vec<Argument> {
    values
        .iter()
        .map(|value| {
            let socket = matches!(
                *value,
                "0.0.0.0:45876" | "127.0.0.1:45876" | "192.168.1.20:45876"
            );
            argument(value.as_bytes(), socket)
        })
        .collect()
}

#[test]
fn empty_arguments_show_help() {
    assert_eq!(parse(&Vec::new()).unwrap(), Command::Help);
}

#[test]
fn copy_accepts_multiple_paths() {
    let command = parse(&strings(&["copy", "report.pdf", "documents"])).unwrap();
    assert_eq!(
        command,
        Command::Copy(vec![b"report.pdf".to_vec(), b"documents".to_vec()])
    );
}

#[test]
fn sync_accepts_single_connect_target() {
    let command = parse(&strings(&["sync", "--connect", "mac.local:45876"])).unwrap();
    assert_eq!(
        command,
        Command::Sync(SyncOptions {
            listen: None,
            connect: Some("mac.local:45876".to_string()),
            tray: false,
        })
    );
}

#[test]
fn duplicate_connect_is_rejected() {
    assert!(parse(&strings(&[
        "sync",
        "--connect",
        "mac.local:45876",
        "--connect",
        "192.168.1.20:45876",
    ]))
    .is_err());
}

#[test]
fn listen_and_connect_are_rejected_together() {
    assert!(parse(&strings(&[
        "sync",
        "--listen",
        "0.0.0.0:45876",
        "--connect",
        "192.168.1.20:45876",
    ]))
    .is_err());
}

#[test]
fn sync_accepts_tray_mode() {
    let command = parse(&strings(&[
        "sync",
        "--tray",
        "--connect",
        "192.168.1.20:45876",
    ]))
    .unwrap();
    assert_eq!(
        command,
        Command::Sync(SyncOptions {
            listen: None,
            connect: Some("192.168.1.20:45876".to_string()),
            tray: true,
        })
    );
}

#[test]
fn duplicate_listen_is_rejected() {
    assert!(parse(&strings(&[
        "sync",
        "--listen",
        "0.0.0.0:45876",
        "--listen",
        "127.0.0.1:45876",
    ]))
    .is_err());
}

#[test]
fn malformed_listen_address_is_rejected() {
    assert!(parse(&strings(&["sync", "--listen", "localhost"])).is_err());
}

#[test]
fn unknown_command_is_not_treated_as_a_path() {
    assert!(parse(&strings(&["status"])).is_err());
}

#[test]
fn copy_preserves_non_utf8_paths() {
    let path = vec![b'n', b'a', 0x80, b'm', b'e'];
    let command = parse(&vec![argument(b"copy", false), argument(&path, false)]).unwrap();
    let Command::Copy(paths) = command else {
        panic!("应解析为 copy 命令");
    };
    assert_eq!(paths[0], b"na\x80me");
}

#[test]
fn every_way_to_ask_for_help_or_the_version() {
    for word in ["-h", "--help", "help"] {
        assert_eq!(parse(&strings(&[word])).unwrap(), Command::Help);
    }
    for word in ["-V", "--version"] {
        assert_eq!(parse(&strings(&[word])).unwrap(), Command::Version);
    }
    assert_eq!(parse(&strings(&["copy", "--help"])).unwrap(), Command::Help);
    assert_eq!(parse(&strings(&["sync", "-h"])).unwrap(), Command::Help);
    assert!(is_help(&argument(b"-h", false)));
    assert!(!is_help(&argument(b"help", false)));
    assert!(!is_help(&argument(b"\xff", false)));
}

#[test]
fn double_dash_is_left_out_once() {
    assert_eq!(
        parse(&strings(&["copy", "--", "--help"])).unwrap(),
        Command::Copy(vec![b"--help".to_vec()])
    );
    assert_eq!(
        parse(&strings(&["copy", "--help", "x"])).unwrap(),
        Command::Copy(vec![b"--help".to_vec(), b"x".to_vec()])
    );
    assert_eq!(
        parse(&strings(&["copy", "--", "--"])).unwrap(),
        Command::Copy(vec![b"--".to_vec()])
    );
}

#[test]
fn listening_keeps_the_address() {
    assert_eq!(
        parse(&strings(&["sync", "--listen", "0.0.0.0:45876"])).unwrap(),
        Command::Sync(SyncOptions {
            listen: Some("0.0.0.0:45876".to_string()),
            connect: None,
            tray: false,
        })
    );
}

#[test]
fn each_error_of_the_command_line() {
    assert_eq!(parse(&strings(&["status"])), Err(CliError::UnknownCommand));
    assert_eq!(
        parse(&vec![argument(b"\xff", false)]),
        Err(CliError::CommandNotUtf8)
    );
    assert_eq!(parse(&strings(&["copy"])), Err(CliError::NoPaths));
    assert_eq!(parse(&strings(&["copy", "--"])), Err(CliError::NoPaths));
    assert_eq!(
        parse(&strings(&["sync", "--listen", "0.0.0.0:45876", "--listen"])),
        Err(CliError::ListenTwice)
    );
    assert_eq!(
        parse(&strings(&["sync", "--listen"])),
        Err(CliError::ListenMissing)
    );
    assert_eq!(
        parse(&vec![
            argument(b"sync", false),
            argument(b"--listen", false),
            argument(b"\xff", false)
        ]),
        Err(CliError::ListenNotUtf8)
    );
    assert_eq!(
        parse(&strings(&["sync", "--tray", "--listen", "localhost"])),
        Err(CliError::ListenInvalid(3))
    );
    assert_eq!(
        parse(&strings(&["sync", "--connect", "a:1", "--connect"])),
        Err(CliError::ConnectTwice)
    );
    assert_eq!(
        parse(&strings(&["sync", "--connect"])),
        Err(CliError::ConnectMissing)
    );
    assert_eq!(
        parse(&vec![
            argument(b"sync", false),
            argument(b"--connect", false),
            argument(b"\xff", false)
        ]),
        Err(CliError::ConnectNotUtf8)
    );
    assert_eq!(
        parse(&strings(&["sync", "--connect", ""])),
        Err(CliError::ConnectEmpty)
    );
    assert_eq!(
        parse(&strings(&["sync", "--fast"])),
        Err(CliError::UnknownOption(1))
    );
    assert_eq!(
        parse(&vec![argument(b"sync", false), argument(b"\xff", false)]),
        Err(CliError::OptionNotUtf8)
    );
    assert_eq!(parse(&strings(&["sync", "--tray"])), Err(CliError::NoRole));
    assert_eq!(
        parse(&strings(&[
            "sync",
            "--listen",
            "0.0.0.0:45876",
            "--connect",
            "a:1"
        ])),
        Err(CliError::BothRoles)
    );
}

#[test]
fn usage_names_both_commands() {
    assert!(usage().starts_with("用法："));
    assert!(usage().contains("clipx copy <文件或目录路径>..."));
    assert!(usage().contains("clipx sync [--tray]"));
    assert_eq!(usage().lines().count(), 5);
}
