//! The command line of the direct mode.

use vstd::prelude::*;

use crate::cli::{argument_views, Argument, ArgumentView};
use crate::paths::{lossy, lossy_text};
use crate::text::{same_text, utf8_text};

verus! {

/// Whom to listen for, and whom to connect to.
#[derive(Debug, Clone, PartialEq, Eq)]
pub struct DirectOptions {
    pub listen: Option<String>,
    pub peer: Option<String>,
}

/// What the command line asks for.
#[derive(Debug, Clone, PartialEq, Eq)]
pub enum DirectCommand {
    Help,
    Run(DirectOptions),
}

/// What the command line asks for, as a value.
pub ghost enum DirectView {
    Help,
    Run { listen: Option<Seq<char>>, peer: Option<Seq<char>> },
}

impl View for DirectCommand {
    type V = DirectView;

    open spec fn view(&self) -> DirectView {
        match self {
            DirectCommand::Help => DirectView::Help,
            DirectCommand::Run(options) => DirectView::Run {
                listen: match options.listen {
                    Some(address) => Some(address@),
                    None => None,
                },
                peer: match options.peer {
                    Some(address) => Some(address@),
                    None => None,
                },
            },
        }
    }
}

/// Why the command line is refused; a number is that of the argument at fault.
#[derive(Debug, Clone, Copy, PartialEq, Eq, Structural)]
pub enum OptionsError {
    ListenMissing,
    PeerMissing,
    UnknownOption(usize),
    NotUtf8,
    NoAddress,
}

/// What the arguments ask for from one of them on, given the addresses that were read
/// before. An address that is given again replaces the one before.
pub open spec fn options_from(
    args: Seq<ArgumentView>,
    at: nat,
    listen: Option<Seq<char>>,
    peer: Option<Seq<char>>,
) -> Result<DirectView, OptionsError>
    decreases args.len() - at,
{
    if at >= args.len() {
        if listen is None && peer is None {
            Err(OptionsError::NoAddress)
        } else {
            Ok(DirectView::Run { listen, peer })
        }
    } else {
        match args[at as int].text() {
            None => Err(OptionsError::NotUtf8),
            Some(text) => {
                if text == "-h"@ || text == "--help"@ {
                    Ok(DirectView::Help)
                } else if text == "--listen"@ {
                    if at + 1 >= args.len() {
                        Err(OptionsError::ListenMissing)
                    } else {
                        options_from(args, at + 2, Some(lossy(args[at as int + 1].raw)), peer)
                    }
                } else if text == "--peer"@ {
                    if at + 1 >= args.len() {
                        Err(OptionsError::PeerMissing)
                    } else {
                        options_from(args, at + 2, listen, Some(lossy(args[at as int + 1].raw)))
                    }
                } else {
                    Err(OptionsError::UnknownOption(at as usize))
                }
            },
        }
    }
}

/// A command, or why there is none, as a value.
pub open spec fn direct_outcome(r: Result<DirectCommand, OptionsError>) -> Result<
    DirectView,
    OptionsError,
> {
    match r {
        Ok(command) => Ok(command@),
        Err(error) => Err(error),
    }
}

/// Reads the command line.
pub fn run(args: &Vec<Argument>) -> (r: Result<DirectCommand, OptionsError>)
    ensures
        direct_outcome(r) == options_from(argument_views(args@), 0, None, None),
{
    let ghost all = argument_views(args@);
    let mut listen: Option<String> = None;
    let mut peer: Option<String> = None;
    let mut i: usize = 0;
    while i < args.len()
        invariant
            i <= args@.len(),
            all == argument_views(args@),
            options_from(all, 0, None, None) == options_from(
                all,
                i as nat,
                match listen {
                    Some(address) => Some(address@),
                    None => None,
                },
                match peer {
                    Some(address) => Some(address@),
                    None => None,
                },
            ),
        decreases args@.len() - i,
    {
        proof {
            assert(all[i as int] == args@[i as int]@);
            if i + 1 < args@.len() {
                assert(all[i + 1] == args@[i + 1]@);
            }
        }
        let text = match utf8_text(args[i].raw.as_slice()) {
            Some(text) => text,
            None => {
                return Err(OptionsError::NotUtf8);
            },
        };
        let text = text.as_str();
        if same_text(text, "-h") || same_text(text, "--help") {
            return Ok(DirectCommand::Help);
        }
        if same_text(text, "--listen") {
            if args.len() - i < 2 {
                return Err(OptionsError::ListenMissing);
            }
            listen = Some(lossy_text(args[i + 1].raw.as_slice()));
        } else if same_text(text, "--peer") {
            if args.len() - i < 2 {
                return Err(OptionsError::PeerMissing);
            }
            peer = Some(lossy_text(args[i + 1].raw.as_slice()));
        } else {
            return Err(OptionsError::UnknownOption(i));
        }
        i += 2;
    }
    if listen.is_none() && peer.is_none() {
        return Err(OptionsError::NoAddress);
    }
    Ok(DirectCommand::Run(DirectOptions { listen, peer }))
}

/// How the direct mode is used.
pub fn usage() -> (text: &'static str)
    ensures
        text@ == "用法：clipx sync --listen <地址> [--peer <地址>]"@,
{
    "用法：clipx sync --listen <地址> [--peer <地址>]"
}

} // verus!
