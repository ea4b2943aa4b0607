//! The command line.

use vstd::prelude::*;
use vstd::slice::slice_to_vec;
use vstd::utf8::{decode_utf8, valid_utf8};

use crate::order::name_views;
use crate::text::{same_text, utf8_text};

verus! {

/// One argument: its raw bytes, and whether they read as a socket address.
pub struct Argument {
    pub raw: Vec<u8>,
    pub socket_address: bool,
}

/// One argument as a value.
pub ghost struct ArgumentView {
    pub raw: Seq<u8>,
    pub socket_address: bool,
}

impl View for Argument {
    type V = ArgumentView;

    open spec fn view(&self) -> ArgumentView {
        ArgumentView { raw: self.raw@, socket_address: self.socket_address }
    }
}

impl ArgumentView {
    /// The argument as a text, where it is one.
    pub open spec fn text(self) -> Option<Seq<char>> {
        if valid_utf8(self.raw) {
            Some(decode_utf8(self.raw))
        } else {
            None
        }
    }

    /// Whether the argument is this text.
    pub open spec fn is(self, text: Seq<char>) -> bool {
        self.text() == Some(text)
    }

    /// Whether the argument asks for help.
    pub open spec fn asks_help(self) -> bool {
        self.is("-h"@) || self.is("--help"@)
    }
}

/// How to synchronise.
#[derive(Debug, Clone, PartialEq, Eq)]
pub struct SyncOptions {
    /// The address to listen on.
    pub listen: Option<String>,
    /// The address to connect to.
    pub connect: Option<String>,
    pub tray: bool,
}

/// How to synchronise, as a value.
pub ghost struct OptionsView {
    pub listen: Option<Seq<char>>,
    pub connect: Option<Seq<char>>,
    pub tray: bool,
}

impl View for SyncOptions {
    type V = OptionsView;

    open spec fn view(&self) -> OptionsView {
        OptionsView {
            listen: match self.listen {
                Some(address) => Some(address@),
                None => None,
            },
            connect: match self.connect {
                Some(address) => Some(address@),
                None => None,
            },
            tray: self.tray,
        }
    }
}

/// What the command line asks for.
#[derive(Debug, Clone, PartialEq, Eq)]
pub enum Command {
    Help,
    Version,
    /// Put these paths, given by their raw bytes, on the clipboard.
    Copy(Vec<Vec<u8>>),
    Sync(SyncOptions),
}

/// What the command line asks for, as a value.
pub ghost enum CommandView {
    Help,
    Version,
    Copy(Seq<Seq<u8>>),
    Sync(OptionsView),
}

impl View for Command {
    type V = CommandView;

    open spec fn view(&self) -> CommandView {
        match self {
            Command::Help => CommandView::Help,
            Command::Version => CommandView::Version,
            Command::Copy(paths) => CommandView::Copy(name_views(paths@)),
            Command::Sync(options) => CommandView::Sync(options@),
        }
    }
}

/// Why the command line is refused; a number is that of the argument at fault.
#[derive(Debug, Clone, Copy, PartialEq, Eq, Structural)]
pub enum CliError {
    UnknownCommand,
    CommandNotUtf8,
    NoPaths,
    ListenTwice,
    ListenMissing,
    ListenNotUtf8,
    ListenInvalid(usize),
    ConnectTwice,
    ConnectMissing,
    ConnectNotUtf8,
    ConnectEmpty,
    UnknownOption(usize),
    OptionNotUtf8,
    NoRole,
    BothRoles,
}

/// The views of a list of arguments.
pub open spec fn argument_views(args: Seq<Argument>) -> Seq<ArgumentView> {
    args.map_values(|a: Argument| a@)
}

/// A command, or why there is none, as a value.
pub open spec fn outcome(r: Result<Command, CliError>) -> Result<CommandView, CliError> {
    match r {
        Ok(command) => Ok(command@),
        Err(error) => Err(error),
    }
}

/// The raw bytes of arguments.
pub open spec fn raw_bytes(args: Seq<ArgumentView>) -> Seq<Seq<u8>> {
    args.map_values(|a: ArgumentView| a.raw)
}

/// What the arguments of `copy` ask for. A lone request for help is one; a leading
/// `--` is left out.
pub open spec fn copy_command(args: Seq<ArgumentView>) -> Result<CommandView, CliError> {
    let paths = if args.len() > 0 && args[0].raw == "--"@.map_values(|c: char| c as u8) {
        args.skip(1)
    } else {
        args
    };
    if args.len() == 1 && args[0].asks_help() {
        Ok(CommandView::Help)
    } else if paths.len() == 0 {
        Err(CliError::NoPaths)
    } else {
        Ok(CommandView::Copy(raw_bytes(paths)))
    }
}

/// What the options of `sync` ask for, once all were read.
pub open spec fn sync_end(options: OptionsView) -> Result<CommandView, CliError> {
    if options.listen is None && options.connect is None {
        Err(CliError::NoRole)
    } else if options.listen is Some && options.connect is Some {
        Err(CliError::BothRoles)
    } else {
        Ok(CommandView::Sync(options))
    }
}

/// What the arguments of `sync` ask for from one of them on, given the options that
/// were read before.
pub open spec fn sync_from(args: Seq<ArgumentView>, at: nat, options: OptionsView) -> Result<
    CommandView,
    CliError,
>
    decreases args.len() - at,
{
    if at >= args.len() {
        sync_end(options)
    } else {
        let arg = args[at as int];
        let value = args[at as int + 1];
        match arg.text() {
            None => Err(CliError::OptionNotUtf8),
            Some(text) => {
                if text == "-h"@ || text == "--help"@ {
                    Ok(CommandView::Help)
                } else if text == "--listen"@ {
                    if options.listen is Some {
                        Err(CliError::ListenTwice)
                    } else if at + 1 >= args.len() {
                        Err(CliError::ListenMissing)
                    } else if value.text() is None {
                        Err(CliError::ListenNotUtf8)
                    } else if !value.socket_address {
                        Err(CliError::ListenInvalid((at + 1) as usize))
                    } else {
                        sync_from(args, at + 2, OptionsView { listen: value.text(), ..options })
                    }
                } else if text == "--connect"@ {
                    if options.connect is Some {
                        Err(CliError::ConnectTwice)
                    } else if at + 1 >= args.len() {
                        Err(CliError::ConnectMissing)
                    } else if value.text() is None {
                        Err(CliError::ConnectNotUtf8)
                    } else if value.text()->0.len() == 0 {
                        Err(CliError::ConnectEmpty)
                    } else {
                        sync_from(args, at + 2, OptionsView { connect: value.text(), ..options })
                    }
                } else if text == "--tray"@ {
                    sync_from(args, at + 1, OptionsView { tray: true, ..options })
                } else {
                    Err(CliError::UnknownOption(at as usize))
                }
            },
        }
    }
}

/// The options before any was read.
pub open spec fn no_options() -> OptionsView {
    OptionsView { listen: None, connect: None, tray: false }
}

/// What the arguments of `sync` ask for.
pub open spec fn sync_command(args: Seq<ArgumentView>) -> Result<CommandView, CliError> {
    sync_from(args, 0, no_options())
}

/// Moves the number of an argument past the command.
pub open spec fn past_command(r: Result<CommandView, CliError>) -> Result<CommandView, CliError> {
    match r {
        Err(CliError::ListenInvalid(at)) => Err(CliError::ListenInvalid((at + 1) as usize)),
        Err(CliError::UnknownOption(at)) => Err(CliError::UnknownOption((at + 1) as usize)),
        other => other,
    }
}

/// What a command line asks for.
pub open spec fn command_line(args: Seq<ArgumentView>) -> Result<CommandView, CliError> {
    if args.len() == 0 {
        Ok(CommandView::Help)
    } else {
        match args[0].text() {
            None => Err(CliError::CommandNotUtf8),
            Some(text) => {
                if text == "-h"@ || text == "--help"@ || text == "help"@ {
                    Ok(CommandView::Help)
                } else if text == "-V"@ || text == "--version"@ {
                    Ok(CommandView::Version)
                } else if text == "copy"@ {
                    copy_command(args.skip(1))
                } else if text == "sync"@ {
                    past_command(sync_command(args.skip(1)))
                } else {
                    Err(CliError::UnknownCommand)
                }
            },
        }
    }
}

/// Whether an argument asks for help.
pub fn is_help(argument: &Argument) -> (r: bool)
    ensures
        r == argument@.asks_help(),
{
    match utf8_text(argument.raw.as_slice()) {
        Some(text) => same_text(text.as_str(), "-h") || same_text(text.as_str(), "--help"),
        None => false,
    }
}

/// Reads a command line. A number in an error counts from the command.
pub fn parse(args: &Vec<Argument>) -> (r: Result<Command, CliError>)
    ensures
        outcome(r) == command_line(argument_views(args@)),
{
    let ghost all = argument_views(args@);
    if args.len() == 0 {
        return Ok(Command::Help);
    }
    proof {
        assert(all[0] == args@[0]@);
    }
    let command = match utf8_text(args[0].raw.as_slice()) {
        Some(command) => command,
        None => {
            return Err(CliError::CommandNotUtf8);
        },
    };
    let command = command.as_str();
    if same_text(command, "-h") || same_text(command, "--help") || same_text(command, "help") {
        return Ok(Command::Help);
    }
    if same_text(command, "-V") || same_text(command, "--version") {
        return Ok(Command::Version);
    }
    if same_text(command, "copy") {
        return parse_copy(args);
    }
    if same_text(command, "sync") {
        return parse_sync(args);
    }
    Err(CliError::UnknownCommand)
}

/// Reads the arguments of `copy`, which follow the command.
fn parse_copy(args: &Vec<Argument>) -> (r: Result<Command, CliError>)
    requires
        args@.len() > 0,
    ensures
        outcome(r) == copy_command(argument_views(args@).skip(1)),
{
    let ghost all = argument_views(args@);
    let ghost rest = all.skip(1);
    proof {
        reveal_strlit("--");
        assert("--"@.map_values(|c: char| c as u8) == seq!['-' as u8, '-' as u8]);
        if args@.len() > 1 {
            assert(rest[0] == args@[1]@);
        }
    }
    if args.len() == 2 && is_help(&args[1]) {
        return Ok(Command::Help);
    }
    let mut from: usize = 1;
    if args.len() > 1 {
        let raw = &args[1].raw;
        if raw.len() == 2 && raw[0] == '-' as u8 && raw[1] == '-' as u8 {
            proof {
                assert(raw@ == seq!['-' as u8, '-' as u8]);
            }
            from = 2;
        }
    }
    if from >= args.len() {
        return Err(CliError::NoPaths);
    }
    let ghost wanted = raw_bytes(all.skip(from as int));
    let mut paths: Vec<Vec<u8>> = Vec::new();
    let mut i: usize = from;
    proof {
        assert(name_views(paths@) == wanted.take(0));
    }
    while i < args.len()
        invariant
            from <= i <= args@.len(),
            all == argument_views(args@),
            wanted == raw_bytes(all.skip(from as int)),
            name_views(paths@) == wanted.take(i - from),
        decreases args@.len() - i,
    {
        let ghost before = paths@;
        let path = slice_to_vec(args[i].raw.as_slice());
        proof {
            assert(all[i as int] == args@[i as int]@);
            assert(wanted[i - from] == path@);
            assert(wanted.take(i + 1 - from) == wanted.take(i - from).push(wanted[i - from]));
        }
        paths.push(path);
        proof {
            assert(name_views(paths@) == name_views(before).push(path@));
        }
        i += 1;
    }
    proof {
        assert(wanted.take(wanted.len() as int) == wanted);
        assert(rest.skip(1) == all.skip(2));
    }
    Ok(Command::Copy(paths))
}

/// Reads the arguments of `sync`, which follow the command.
fn parse_sync(args: &Vec<Argument>) -> (r: Result<Command, CliError>)
    requires
        args@.len() > 0,
    ensures
        outcome(r) == past_command(sync_command(argument_views(args@).skip(1))),
{
    let ghost all = argument_views(args@).skip(1);
    let mut options = SyncOptions { listen: None, connect: None, tray: false };
    let mut i: usize = 1;
    while i < args.len()
        invariant
            1 <= i <= args@.len(),
            all == argument_views(args@).skip(1),
            sync_command(all) == sync_from(all, (i - 1) as nat, options@),
        decreases args@.len() - i,
    {
        proof {
            assert(all[i - 1] == args@[i as int]@);
            if i + 1 < args@.len() {
                assert(all[i as int] == args@[i + 1]@);
            }
        }
        let text = match utf8_text(args[i].raw.as_slice()) {
            Some(text) => text,
            None => {
                return Err(CliError::OptionNotUtf8);
            },
        };
        let text = text.as_str();
        if same_text(text, "-h") || same_text(text, "--help") {
            return Ok(Command::Help);
        }
        if same_text(text, "--listen") {
            if options.listen.is_some() {
                return Err(CliError::ListenTwice);
            }
            if args.len() - i < 2 {
                return Err(CliError::ListenMissing);
            }
            let value = match utf8_text(args[i + 1].raw.as_slice()) {
                Some(value) => value,
                None => {
                    return Err(CliError::ListenNotUtf8);
                },
            };
            if !args[i + 1].socket_address {
                return Err(CliError::ListenInvalid(i + 1));
            }
            options.listen = Some(value);
            i += 2;
        } else if same_text(text, "--connect") {
            if options.connect.is_some() {
                return Err(CliError::ConnectTwice);
            }
            if args.len() - i < 2 {
                return Err(CliError::ConnectMissing);
            }
            let value = match utf8_text(args[i + 1].raw.as_slice()) {
                Some(value) => value,
                None => {
                    return Err(CliError::ConnectNotUtf8);
                },
            };
            if value.as_str().is_empty() {
                return Err(CliError::ConnectEmpty);
            }
            options.connect = Some(value);
            i += 2;
        } else if same_text(text, "--tray") {
            options.tray = true;
            i += 1;
        } else {
            return Err(CliError::UnknownOption(i));
        }
    }
    if options.listen.is_none() && options.connect.is_none() {
        return Err(CliError::NoRole);
    }
    if options.listen.is_some() && options.connect.is_some() {
        return Err(CliError::BothRoles);
    }
    Ok(Command::Sync(options))
}

/// How the program is used.
pub fn usage() -> (text: &'static str)
    ensures
        text@
            == "用法：\n  clipx copy <文件或目录路径>...\n  clipx sync [--tray] [--listen <地址>] [--connect <地址>]...\n  clipx --help\n  clipx --version"@,
{
    "用法：\n  clipx copy <文件或目录路径>...\n  clipx sync [--tray] [--listen <地址>] [--connect <地址>]...\n  clipx --help\n  clipx --version"
}

proof fn lemma_sync_has_one_role(args: Seq<ArgumentView>, at: nat, options: OptionsView)
    ensures
        sync_from(args, at, options) matches Ok(CommandView::Sync(found)) ==> {
            found.listen is Some <==> found.connect is None
        },
    decreases args.len() - at,
{
    if at < args.len() {
        let value = args[at as int + 1];
        if at + 1 < args.len() {
            lemma_sync_has_one_role(args, at + 2, OptionsView { listen: value.text(), ..options });
            lemma_sync_has_one_role(args, at + 2, OptionsView { connect: value.text(), ..options });
        }
        lemma_sync_has_one_role(args, at + 1, OptionsView { tray: true, ..options });
    }
}

/// Whoever synchronises either listens or connects, and never both.
pub proof fn law_sync_has_one_role(args: Seq<ArgumentView>)
    ensures
        command_line(args) matches Ok(CommandView::Sync(options)) ==> {
            options.listen is Some <==> options.connect is None
        },
{
    lemma_sync_has_one_role(args.skip(1), 0, no_options());
}

} // verus!
