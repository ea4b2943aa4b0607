//! The tray: its texts, its icon, and how a new configuration takes effect.

use vstd::prelude::*;
use vstd::string::StringExecFns;

use crate::cli::{OptionsView, SyncOptions};
use crate::config::{ConfigView, DesktopConfig, DesktopRole};
use crate::image::{decode_png, decoded, png_frame, png_header, ImageError};
use crate::panel::{panel_asks, PanelRequestView};
use crate::text::{decimal, decimal_text, same_text};

verus! {

/// The width and height of the tray's icon.
pub const ICON_SIZE: u32 = 32;

/// What the program starts with: the configuration that was saved, else the one
/// that was set up; with neither it does not start.
pub fn run(saved: Option<DesktopConfig>, set_up: Option<DesktopConfig>) -> (r: Option<SyncOptions>)
    ensures
        r is None <==> saved is None && set_up is None,
        r matches Some(options) ==> {
            let config = if saved is Some {
                saved->0@
            } else {
                set_up->0@
            };
            options@ == OptionsView {
                listen: if config.role == DesktopRole::Listen {
                    Some(config.address)
                } else {
                    None
                },
                connect: if config.role == DesktopRole::Connect {
                    Some(config.address)
                } else {
                    None
                },
                tray: true,
            }
        },
{
    match (saved, set_up) {
        (Some(config), _) => Some(config.sync_options()),
        (None, Some(config)) => Some(config.sync_options()),
        (None, None) => None,
    }
}

/// What the panel shows of the connection, and what it offers to do about it.
pub open spec fn shown_state(role: DesktopRole, connection_enabled: bool, peer_count: usize) -> (
    Seq<char>,
    Option<Seq<char>>,
) {
    if role == DesktopRole::Listen {
        ("运行中"@, None)
    } else if !connection_enabled {
        ("已断开"@, Some("reconnect"@))
    } else if peer_count > 0 {
        ("已连接"@, Some("disconnect"@))
    } else {
        ("正在连接"@, Some("disconnect"@))
    }
}

/// What the panel shows of the connection, and what it offers to do about it.
pub fn runtime_state(role: DesktopRole, connection_enabled: bool, peer_count: usize) -> (r: (
    &'static str,
    Option<&'static str>,
))
    ensures
        ({
            let (status, action) = shown_state(role, connection_enabled, peer_count);
            &&& r.0@ == status
            &&& r.1 is Some <==> action is Some
            &&& r.1 matches Some(offered) ==> Some(offered@) == action
        }),
{
    if role == DesktopRole::Listen {
        return ("运行中", None);
    }
    if !connection_enabled {
        ("已断开", Some("reconnect"))
    } else if peer_count > 0 {
        ("已连接", Some("disconnect"))
    } else {
        ("正在连接", Some("disconnect"))
    }
}

/// The identifier of the menu's entry that ends the program.
pub const EXIT_MENU_ID: &'static str = "exit";

/// The identifier of the menu's entry that opens the device panel.
pub const OPEN_MENU_ID: &'static str = "open";

/// What an entry of the tray's menu does.
#[derive(Debug, Clone, Copy, PartialEq, Eq, Structural)]
pub enum MenuAction {
    Nothing,
    /// Stop the synchronisation and leave.
    Exit,
    /// Show the panel that there is.
    ShowPanel,
    /// Make a panel and show it.
    OpenPanel,
}

/// What the entry of the tray's menu with this identifier does.
pub fn menu_action(id: &str, has_panel: bool) -> (action: MenuAction)
    ensures
        action == if id@ == EXIT_MENU_ID@ {
            MenuAction::Exit
        } else if id@ != OPEN_MENU_ID@ {
            MenuAction::Nothing
        } else if has_panel {
            MenuAction::ShowPanel
        } else {
            MenuAction::OpenPanel
        },
{
    if same_text(id, EXIT_MENU_ID) {
        return MenuAction::Exit;
    }
    if !same_text(id, OPEN_MENU_ID) {
        return MenuAction::Nothing;
    }
    if has_panel {
        MenuAction::ShowPanel
    } else {
        MenuAction::OpenPanel
    }
}

/// What the tray's menu says of the connection.
pub fn tray_status_text(role: DesktopRole, connection_enabled: bool, peer_count: usize) -> (text:
    String)
    ensures
        text@ == if role == DesktopRole::Listen {
            "已连接 "@ + decimal(peer_count as nat) + " 台设备"@
        } else if !connection_enabled {
            "连接已断开"@
        } else if peer_count > 0 {
            "已连接"@
        } else {
            "正在连接"@
        },
{
    if role == DesktopRole::Listen {
        let mut text = String::from_str("已连接 ");
        let count = decimal_text(peer_count as u128);
        text.append(count.as_str());
        text.append(" 台设备");
        text
    } else if !connection_enabled {
        String::from_str("连接已断开")
    } else if peer_count > 0 {
        String::from_str("已连接")
    } else {
        String::from_str("正在连接")
    }
}

/// Whether there is a graphical session: one of its variables is set and not empty.
pub fn require_graphical_session(display: Option<&[u8]>, wayland: Option<&[u8]>) -> (r: bool)
    ensures
        r == ((display matches Some(value) && value@.len() > 0) || (wayland matches Some(value)
            && value@.len() > 0)),
{
    let has_display = match display {
        Some(value) => value.len() > 0,
        None => false,
    };
    let has_wayland = match wayland {
        Some(value) => value.len() > 0,
        None => false,
    };
    has_display || has_wayland
}

/// The pixels of the tray's icon, which has to be of its size.
pub fn icon_rgba(bytes: &[u8]) -> (r: Result<Vec<u8>, ImageError>)
    ensures
        match decoded(png_header(bytes@), png_frame(bytes@)) {
            Err(error) => r == Err::<Vec<u8>, ImageError>(error),
            Ok((width, height, pixels)) => if width != ICON_SIZE || height != ICON_SIZE {
                r == Err::<Vec<u8>, ImageError>(ImageError::DimensionMismatch)
            } else {
                r matches Ok(icon) && icon@ == pixels && icon@.len() == 32 * 32 * 4
            },
        },
{
    match decode_png(bytes) {
        Err(error) => Err(error),
        Ok((width, height, pixels)) => {
            if width != ICON_SIZE || height != ICON_SIZE {
                return Err(ImageError::DimensionMismatch);
            }
            Ok(pixels)
        },
    }
}

/// Why a new configuration does not take effect.
#[derive(Debug, Clone, Copy, PartialEq, Eq, Structural)]
pub enum ChangeError {
    /// The synchronisation could not be started with it.
    Start,
    /// It could not be saved.
    Save,
}

/// How far a change of the configuration has come.
#[derive(Debug, Clone, Copy, PartialEq, Eq, Structural)]
pub enum ChangeStage {
    /// The old synchronisation is stopped; start the new one.
    Starting,
    /// The new synchronisation runs; save the configuration.
    Saving,
    /// The new synchronisation does not run; start the old one again.
    Restoring(ChangeError),
    /// The new configuration is in effect.
    Applied,
    /// The old configuration is in effect again.
    Refused(ChangeError),
    /// Neither could be started.
    Lost(ChangeError),
}

/// Which configuration the synchronisation runs with at a stage; nothing while it is
/// stopped.
pub open spec fn running(stage: ChangeStage, before: ConfigView, next: ConfigView) -> Option<
    ConfigView,
> {
    match stage {
        ChangeStage::Starting => None,
        ChangeStage::Saving => Some(next),
        ChangeStage::Restoring(_) => None,
        ChangeStage::Applied => Some(next),
        ChangeStage::Refused(_) => Some(before),
        ChangeStage::Lost(_) => None,
    }
}

/// The stage after what a stage asks for was tried.
pub open spec fn change_next(stage: ChangeStage, succeeded: bool) -> ChangeStage {
    match stage {
        ChangeStage::Starting => if succeeded {
            ChangeStage::Saving
        } else {
            ChangeStage::Restoring(ChangeError::Start)
        },
        ChangeStage::Saving => if succeeded {
            ChangeStage::Applied
        } else {
            ChangeStage::Restoring(ChangeError::Save)
        },
        ChangeStage::Restoring(error) => if succeeded {
            ChangeStage::Refused(error)
        } else {
            ChangeStage::Lost(error)
        },
        done => done,
    }
}

/// Begins a change of the configuration; one to the same configuration is done at
/// once.
pub fn apply_config(current: &DesktopConfig, next: &DesktopConfig) -> (stage: ChangeStage)
    ensures
        stage == if current@ == next@ {
            ChangeStage::Applied
        } else {
            ChangeStage::Starting
        },
{
    if current.role == next.role && same_text(current.address.as_str(), next.address.as_str()) {
        ChangeStage::Applied
    } else {
        ChangeStage::Starting
    }
}

/// Goes on with a change, given whether what the stage asks for succeeded.
pub fn change_step(stage: ChangeStage, succeeded: bool) -> (next: ChangeStage)
    ensures
        next == change_next(stage, succeeded),
{
    match stage {
        ChangeStage::Starting => {
            if succeeded {
                ChangeStage::Saving
            } else {
                ChangeStage::Restoring(ChangeError::Start)
            }
        },
        ChangeStage::Saving => {
            if succeeded {
                ChangeStage::Applied
            } else {
                ChangeStage::Restoring(ChangeError::Save)
            }
        },
        ChangeStage::Restoring(error) => {
            if succeeded {
                ChangeStage::Refused(error)
            } else {
                ChangeStage::Lost(error)
            }
        },
        done => done,
    }
}

/// A change ends after at most three attempts, whatever becomes of them, and then
/// either the new configuration is in effect, or the old one, or neither could be
/// started.
pub proof fn law_change_ends(
    first: bool,
    second: bool,
    third: bool,
    before: ConfigView,
    next: ConfigView,
)
    ensures
        ({
            let one = change_next(ChangeStage::Starting, first);
            let two = change_next(one, second);
            let end = change_next(two, third);
            &&& end is Applied || end is Refused || end is Lost
            &&& end is Applied <==> first && second
            &&& end is Applied ==> running(end, before, next) == Some(next)
            &&& end is Refused ==> running(end, before, next) == Some(before)
        }),
{
}

/// The panel is understood when it asks for what it was offered: a connection that is
/// sought or stands is closed, and one that was closed is sought again.
pub proof fn law_offered_actions_are_understood(
    role: DesktopRole,
    connection_enabled: bool,
    peer_count: usize,
)
    ensures
        shown_state(role, connection_enabled, peer_count).1 matches Some(action) ==> panel_asks(
            action,
        ) == Some(
            if connection_enabled {
                PanelRequestView::Disconnect
            } else {
                PanelRequestView::Reconnect
            },
        ),
{
    reveal_strlit("disconnect");
    reveal_strlit("reconnect");
}

} // verus!
