use clipx::config::DesktopRole::{Connect, Listen};
use clipx::config::{DesktopConfig, DesktopRole};
use clipx::image::{encode_png, ImageError};
use clipx::panel::{
    html_text, js_array, js_string, panel_html, panel_request, set_peer_addresses, setup_error,
    setup_request, PanelRequest,
};
use clipx::tray::ChangeStage::{Applied, Lost, Refused, Restoring, Saving, Starting};
use clipx::tray::{
    apply_config, change_step, icon_rgba, menu_action, require_graphical_session, run,
    runtime_state, tray_status_text, ChangeError, MenuAction,
};

#[test]
fn scripts_quote_their_texts() {
    assert_eq!(js_string("plain \"x\""), "'plain \"x\"'");
    assert_eq!(js_string("a'b\\c\nd\re"), "'a\\'b\\\\c\\nd\\re'");
    assert_eq!(
        js_array(&vec!["a".to_string(), "b'".to_string()]),
        "['a','b\\'']"
    );
    assert_eq!(js_array(&vec![]), "[]");
    assert_eq!(
        setup_error("bad 'x'"),
        "window.clipxSetError('bad \\'x\\'');"
    );
}

#[test]
fn pages_escape_their_texts() {
    assert_eq!(
        html_text("<a href=\"x\">&'</a>"),
        "&lt;a href=\"x\"&gt;&amp;'&lt;/a&gt;"
    );
    let template = "__LISTEN_MODE__|__LISTEN_ADDRESS_DISPLAY__|__CONNECT_TARGET_DISPLAY__";
    assert_eq!(
        panel_html(template, Some("0.0.0.0:1"), None),
        "true|0.0.0.0:1|"
    );
    assert_eq!(panel_html(template, None, Some("<h>:1")), "false||&lt;h&gt;:1");
}

#[test]
fn devices_are_shown_when_they_change() {
    let devices = |names: &[&str]| names.iter().map(|n| n.to_string()).collect::<Vec<_>>();
    assert_eq!(
        set_peer_addresses(&devices(&["a"]), &devices(&["a"])),
        None
    );
    assert_eq!(
        set_peer_addresses(&devices(&["a"]), &devices(&["a", "b"])),
        Some("window.clipxSetPeers(['a','b']);".to_string())
    );
    assert_eq!(
        set_peer_addresses(&devices(&["a"]), &devices(&[])),
        Some("window.clipxSetPeers([]);".to_string())
    );
}

#[test]
fn setup_messages_hold_a_role_and_an_address() {
    let listen = setup_request("save:listen:0.0.0.0:1").unwrap();
    assert_eq!(listen.role, DesktopRole::Listen);
    assert_eq!(listen.address, "0.0.0.0:1");
    let connect = setup_request("save:connect:h:1").unwrap();
    assert_eq!(connect.role, DesktopRole::Connect);
    assert_eq!(connect.address, "h:1");
    assert!(setup_request("save:other:h:1").is_none());
    assert!(setup_request("cancel").is_none());
}

#[test]
fn the_tray_says_how_things_stand() {
    assert_eq!(runtime_state(Listen, false, 3), ("运行中", None));
    assert_eq!(
        runtime_state(Connect, false, 1),
        ("已断开", Some("reconnect"))
    );
    assert_eq!(
        runtime_state(Connect, true, 1),
        ("已连接", Some("disconnect"))
    );
    assert_eq!(
        runtime_state(Connect, true, 0),
        ("正在连接", Some("disconnect"))
    );
    assert_eq!(tray_status_text(Listen, true, 12), "已连接 12 台设备");
    assert_eq!(tray_status_text(Connect, false, 1), "连接已断开");
    assert_eq!(tray_status_text(Connect, true, 1), "已连接");
    assert_eq!(tray_status_text(Connect, true, 0), "正在连接");
}

#[test]
fn a_graphical_session_has_a_display() {
    assert!(require_graphical_session(Some(b":0"), None));
    assert!(require_graphical_session(None, Some(b"wayland-0")));
    assert!(require_graphical_session(Some(b""), Some(b"wayland-0")));
    assert!(!require_graphical_session(Some(b""), None));
    assert!(!require_graphical_session(None, None));
}

#[test]
fn icon_has_transparent_background_and_visible_colors() {
    let mut drawn = vec![0u8; 32 * 32 * 4];
    drawn[400..404].copy_from_slice(&[255, 255, 255, 255]);
    drawn[404..408].copy_from_slice(&[10, 20, 30, 128]);
    let file = encode_png(32, 32, &drawn).unwrap();
    let pixels = icon_rgba(&file).expect("托盘图标应能解码");
    assert_eq!(pixels.len(), 32 * 32 * 4);
    assert_eq!(&pixels[..4], &[0, 0, 0, 0]);
    assert!(pixels
        .chunks(4)
        .any(|pixel| pixel == [255, 255, 255, 255]));
    assert!(pixels
        .chunks(4)
        .any(|pixel| pixel[3] > 0 && pixel[3] < 255));
}

#[test]
fn icons_of_another_size_are_refused() {
    let file = encode_png(16, 16, &vec![0; 16 * 16 * 4]).unwrap();
    assert_eq!(icon_rgba(&file), Err(ImageError::DimensionMismatch));
    assert_eq!(icon_rgba(b"x"), Err(ImageError::Header));
}

fn config(address: &str) -> DesktopConfig {
    DesktopConfig::from_form(DesktopRole::Connect, address, false).unwrap()
}

#[test]
fn the_tray_starts_with_what_was_saved_or_set_up() {
    assert_eq!(
        run(Some(config("a:1")), None),
        Some(config("a:1").sync_options())
    );
    assert_eq!(
        run(None, Some(config("b:1"))),
        Some(config("b:1").sync_options())
    );
    assert_eq!(run(None, None), None);
}

#[test]
fn a_change_is_applied_or_taken_back() {
    assert_eq!(apply_config(&config("a:1"), &config("a:1")), Applied);
    let first = apply_config(&config("a:1"), &config("b:1"));
    assert_eq!(first, Starting);
    assert_eq!(change_step(first, true), Saving);
    assert_eq!(change_step(Saving, true), Applied);
    assert_eq!(change_step(Saving, false), Restoring(ChangeError::Save));
    assert_eq!(change_step(Starting, false), Restoring(ChangeError::Start));
    assert_eq!(
        change_step(Restoring(ChangeError::Save), true),
        Refused(ChangeError::Save)
    );
    assert_eq!(
        change_step(Restoring(ChangeError::Start), false),
        Lost(ChangeError::Start)
    );
}

#[test]
fn the_panel_is_understood() {
    let (_, offered) = runtime_state(Connect, true, 1);
    assert!(matches!(
        panel_request(offered.unwrap()),
        Some(PanelRequest::Disconnect)
    ));
    let (_, offered) = runtime_state(Connect, false, 1);
    assert!(matches!(
        panel_request(offered.unwrap()),
        Some(PanelRequest::Reconnect)
    ));
    match panel_request("save:listen:0.0.0.0:1") {
        Some(PanelRequest::SaveConfig { role, address }) => {
            assert_eq!((role, address.as_str()), (Listen, "0.0.0.0:1"));
        }
        _ => panic!("configuration expected"),
    }
    assert!(panel_request("exit").is_none());
}

#[test]
fn the_menu_opens_one_panel() {
    assert_eq!(menu_action("exit", true), MenuAction::Exit);
    assert_eq!(menu_action("open", false), MenuAction::OpenPanel);
    assert_eq!(menu_action("open", true), MenuAction::ShowPanel);
    assert_eq!(menu_action("status", true), MenuAction::Nothing);
}
