//! What the command line asks for.

use vstd::prelude::*;
use vstd::utf8::{
    decode_utf8, decode_utf8_encode_utf8, encode_utf8, is_ascii_chars_encode_utf8, valid_utf8,
};

use crate::cli::{
    command_line, copy_command, no_options, sync_command, sync_from, ArgumentView, CliError,
    CommandView, OptionsView,
};

verus! {

/// Whether an argument is this text.
pub open spec fn reads(argument: ArgumentView, text: Seq<char>) -> bool {
    valid_utf8(argument.raw) && decode_utf8(argument.raw) == text
}

/// Paths are copied as they are, all of them and in their order, whatever bytes they hold;
/// two hyphens before them only say that paths follow.
pub proof fn law_paths_are_copied(paths: Seq<ArgumentView>, mark: ArgumentView)
    requires
        paths.len() > 0,
        mark.raw == seq![0x2du8, 0x2du8],
    ensures
        paths[0].raw != seq![0x2du8, 0x2du8] && !(paths.len() == 1 && (reads(paths[0], "-h"@)
            || reads(paths[0], "--help"@))) ==> (copy_command(paths) matches Ok(CommandView::Copy(
            copied,
        )) && copied.len() == paths.len() && forall|i: int|
            0 <= i < paths.len() ==> #[trigger] copied[i] == paths[i].raw),
        copy_command(seq![mark] + paths) matches Ok(CommandView::Copy(copied)) && copied.len()
            == paths.len() && forall|i: int|
            0 <= i < paths.len() ==> #[trigger] copied[i] == paths[i].raw,
        copy_command(Seq::<ArgumentView>::empty()) == Err::<CommandView, CliError>(
            CliError::NoPaths,
        ),
        copy_command(seq![mark]) == Err::<CommandView, CliError>(CliError::NoPaths),
        paths.len() == 1 && (reads(paths[0], "-h"@) || reads(paths[0], "--help"@)) ==> copy_command(
            paths,
        ) == Ok::<CommandView, CliError>(CommandView::Help),
{
    reveal_strlit("--");
    let hyphens = "--"@.map_values(|c: char| c as u8);
    assert(hyphens == seq![0x2du8, 0x2du8]);
    let marked = seq![mark] + paths;
    assert(marked.skip(1) == paths);
    assert(marked[0] == mark);
    assert(seq![mark].skip(1) == Seq::<ArgumentView>::empty());
    reveal_strlit("-h");
    reveal_strlit("--help");
    if valid_utf8(mark.raw) {
        decode_utf8_encode_utf8(mark.raw);
        is_ascii_chars_encode_utf8("-h"@);
        is_ascii_chars_encode_utf8("--help"@);
        if reads(mark, "-h"@) {
            assert(encode_utf8("-h"@)[1] == 0x68);
        }
        if reads(mark, "--help"@) {
            assert(encode_utf8("--help"@).len() == 6);
        }
    }
}

/// A line of arguments ends in one role: to listen or to connect.
pub proof fn law_one_role_is_asked_for(
    args: Seq<ArgumentView>,
    address: Seq<char>,
    other: Seq<char>,
    tray: bool,
)
    ensures
        ({
            let n = args.len();
            &&& sync_from(args, n, OptionsView { listen: Some(address), connect: None, tray })
                == Ok::<CommandView, CliError>(
                CommandView::Sync(OptionsView { listen: Some(address), connect: None, tray }),
            )
            &&& sync_from(args, n, OptionsView { listen: None, connect: Some(address), tray })
                == Ok::<CommandView, CliError>(
                CommandView::Sync(OptionsView { listen: None, connect: Some(address), tray }),
            )
            &&& sync_from(args, n, OptionsView { listen: None, connect: None, tray }) == Err::<
                CommandView,
                CliError,
            >(CliError::NoRole)
            &&& sync_from(
                args,
                n,
                OptionsView { listen: Some(address), connect: Some(other), tray },
            ) == Err::<CommandView, CliError>(CliError::BothRoles)
        }),
        no_options() == (OptionsView { listen: None, connect: None, tray: false }),
        sync_command(args) == sync_from(args, 0, no_options()),
{
}

/// Each option is read with its value: an address to listen on has to be one, an address to
/// connect to has not to be empty, and neither may be given twice. Everything else of the
/// line stays as it was.
pub proof fn law_options_are_read(args: Seq<ArgumentView>, at: nat, options: OptionsView)
    requires
        at < args.len() < usize::MAX,
    ensures
        ({
            let arg = args[at as int];
            let value = args[at as int + 1];
            let read = sync_from(args, at, options);
            &&& !valid_utf8(arg.raw) ==> read == Err::<CommandView, CliError>(
                CliError::OptionNotUtf8,
            )
            &&& reads(arg, "-h"@) || reads(arg, "--help"@) ==> read == Ok::<CommandView, CliError>(
                CommandView::Help,
            )
            &&& reads(arg, "--tray"@) ==> read == sync_from(
                args,
                at + 1,
                OptionsView { listen: options.listen, connect: options.connect, tray: true },
            )
            &&& reads(arg, "--listen"@) ==> {
                &&& options.listen is Some ==> read == Err::<CommandView, CliError>(
                    CliError::ListenTwice,
                )
                &&& options.listen is None && at + 1 == args.len() ==> read == Err::<
                    CommandView,
                    CliError,
                >(CliError::ListenMissing)
                &&& options.listen is None && at + 1 < args.len() && !valid_utf8(value.raw)
                    ==> read == Err::<CommandView, CliError>(CliError::ListenNotUtf8)
                &&& options.listen is None && at + 1 < args.len() && valid_utf8(value.raw)
                    && !value.socket_address ==> (read matches Err(CliError::ListenInvalid(which))
                    && which == at + 1)
                &&& options.listen is None && at + 1 < args.len() && valid_utf8(value.raw)
                    && value.socket_address ==> read == sync_from(
                    args,
                    at + 2,
                    OptionsView {
                        listen: Some(decode_utf8(value.raw)),
                        connect: options.connect,
                        tray: options.tray,
                    },
                )
            }
            &&& reads(arg, "--connect"@) ==> {
                &&& options.connect is Some ==> read == Err::<CommandView, CliError>(
                    CliError::ConnectTwice,
                )
                &&& options.connect is None && at + 1 == args.len() ==> read == Err::<
                    CommandView,
                    CliError,
                >(CliError::ConnectMissing)
                &&& options.connect is None && at + 1 < args.len() && !valid_utf8(value.raw)
                    ==> read == Err::<CommandView, CliError>(CliError::ConnectNotUtf8)
                &&& options.connect is None && at + 1 < args.len() && reads(
                    value,
                    Seq::<char>::empty(),
                ) ==> read == Err::<CommandView, CliError>(CliError::ConnectEmpty)
                &&& options.connect is None && at + 1 < args.len() && valid_utf8(value.raw)
                    && decode_utf8(value.raw).len() > 0 ==> read == sync_from(
                    args,
                    at + 2,
                    OptionsView {
                        listen: options.listen,
                        connect: Some(decode_utf8(value.raw)),
                        tray: options.tray,
                    },
                )
            }
            &&& valid_utf8(arg.raw) && !reads(arg, "-h"@) && !reads(arg, "--help"@) && !reads(
                arg,
                "--tray"@,
            ) && !reads(arg, "--listen"@) && !reads(arg, "--connect"@) ==> (
            read matches Err(CliError::UnknownOption(which)) && which == at)
        }),
{
    reveal_strlit("-h");
    reveal_strlit("--help");
    reveal_strlit("--tray");
    reveal_strlit("--listen");
    reveal_strlit("--connect");
    assert("-h"@.len() == 2 && "--help"@.len() == 6 && "--tray"@.len() == 6 && "--listen"@.len()
        == 8 && "--connect"@.len() == 9);
    assert("--help"@[2] == 'h' && "--tray"@[2] == 't');
}

/// The first argument is the command, and the rest is left to it; places in the rest are
/// told by their place in the whole line.
pub proof fn law_commands_are_read(args: Seq<ArgumentView>)
    requires
        0 < args.len() < usize::MAX,
    ensures
        command_line(Seq::<ArgumentView>::empty()) == Ok::<CommandView, CliError>(
            CommandView::Help,
        ),
        ({
            let command = args[0];
            let rest = sync_command(args.skip(1));
            let read = command_line(args);
            &&& !valid_utf8(command.raw) ==> read == Err::<CommandView, CliError>(
                CliError::CommandNotUtf8,
            )
            &&& reads(command, "-h"@) || reads(command, "--help"@) || reads(command, "help"@)
                ==> read == Ok::<CommandView, CliError>(CommandView::Help)
            &&& reads(command, "-V"@) || reads(command, "--version"@) ==> read == Ok::<
                CommandView,
                CliError,
            >(CommandView::Version)
            &&& reads(command, "copy"@) ==> read == copy_command(args.skip(1))
            &&& reads(command, "sync"@) ==> {
                &&& rest is Ok ==> read == rest
                &&& rest matches Err(CliError::ListenInvalid(at)) ==> at < usize::MAX ==> (
                read matches Err(CliError::ListenInvalid(which)) && which == at + 1)
                &&& rest matches Err(CliError::UnknownOption(at)) ==> at < usize::MAX ==> (
                read matches Err(CliError::UnknownOption(which)) && which == at + 1)
                &&& rest matches Err(error) ==> !(error is ListenInvalid) && !(
                error is UnknownOption) ==> read == rest
            }
            &&& valid_utf8(command.raw) && !reads(command, "-h"@) && !reads(command, "--help"@)
                && !reads(command, "help"@) && !reads(command, "-V"@) && !reads(
                command,
                "--version"@,
            ) && !reads(command, "copy"@) && !reads(command, "sync"@) ==> read == Err::<
                CommandView,
                CliError,
            >(CliError::UnknownCommand)
        }),
{
    reveal_strlit("-h");
    reveal_strlit("--help");
    reveal_strlit("help");
    reveal_strlit("-V");
    reveal_strlit("--version");
    reveal_strlit("copy");
    reveal_strlit("sync");
    assert("-h"@[1] == 'h' && "-V"@[1] == 'V');
    assert("--help"@.len() == 6 && "help"@.len() == 4 && "--version"@.len() == 9 && "copy"@.len()
        == 4 && "sync"@.len() == 4 && "-h"@.len() == 2 && "-V"@.len() == 2);
    assert("help"@[0] == 'h' && "copy"@[0] == 'c' && "sync"@[0] == 's');
}

} // verus!
