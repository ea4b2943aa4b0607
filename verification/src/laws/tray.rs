//! What the tray shows and does.

use vstd::prelude::*;

use crate::config::{ConfigView, DesktopRole};
use crate::tray::{change_next, running, shown_state, ChangeError, ChangeStage};

verus! {

/// A change of settings is applied if and only if it was started and saved; otherwise what
/// was there before is restored, and is lost only where that fails too.
pub proof fn law_settings_are_applied(
    started: bool,
    saved: bool,
    restored: bool,
    before: ConfigView,
    next: ConfigView,
)
    ensures
        ({
            let one = change_next(ChangeStage::Starting, started);
            let two = change_next(one, if started {
                saved
            } else {
                restored
            });
            let end = if started && !saved {
                change_next(two, restored)
            } else {
                two
            };
            &&& started && saved ==> end == ChangeStage::Applied && running(end, before, next)
                == Some(next)
            &&& !started && restored ==> end == ChangeStage::Refused(ChangeError::Start)
            &&& !started && !restored ==> end == ChangeStage::Lost(ChangeError::Start)
            &&& started && !saved && restored ==> end == ChangeStage::Refused(ChangeError::Save)
            &&& started && !saved && !restored ==> end == ChangeStage::Lost(ChangeError::Save)
            &&& !(started && saved) && restored ==> running(end, before, next) == Some(before)
            &&& !(started && saved) && !restored ==> running(end, before, next) is None
        }),
{
}

/// What is settled stays settled.
pub proof fn law_settled_stays_settled(error: ChangeError, succeeded: bool)
    ensures
        change_next(ChangeStage::Applied, succeeded) == ChangeStage::Applied,
        change_next(ChangeStage::Refused(error), succeeded) == ChangeStage::Refused(error),
        change_next(ChangeStage::Lost(error), succeeded) == ChangeStage::Lost(error),
{
}

/// A device that connects can be told to disconnect while it may connect, and to reconnect
/// while it may not; one that listens can be told neither. Whether it is connected shows.
pub proof fn law_state_is_shown(enabled: bool, peers: usize)
    ensures
        shown_state(DesktopRole::Listen, enabled, peers) == ("运行中"@, None::<Seq<char>>),
        enabled ==> shown_state(DesktopRole::Connect, enabled, peers).1 == Some("disconnect"@),
        !enabled ==> shown_state(DesktopRole::Connect, enabled, peers).1 == Some("reconnect"@),
        !enabled ==> shown_state(DesktopRole::Connect, enabled, peers).0 == "已断开"@,
        enabled && peers >= 1 ==> shown_state(DesktopRole::Connect, enabled, peers).0
            == "已连接"@,
        enabled && peers == 0 ==> shown_state(DesktopRole::Connect, enabled, peers).0
            == "正在连接"@,
{
}

} // verus!
