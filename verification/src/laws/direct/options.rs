//! What the direct command line asks for.

use vstd::prelude::*;
use vstd::utf8::valid_utf8;

use crate::cli::ArgumentView;
use crate::direct::options::{options_from, DirectView, OptionsError};
use crate::laws::cli::reads;
use crate::paths::lossy;

verus! {

/// A line of arguments ends with an address to listen on, an address to connect to, or
/// both.
pub proof fn law_an_address_is_asked_for(
    args: Seq<ArgumentView>,
    listen: Option<Seq<char>>,
    peer: Option<Seq<char>>,
)
    ensures
        listen is Some || peer is Some ==> options_from(args, args.len(), listen, peer) == Ok::<
            DirectView,
            OptionsError,
        >(DirectView::Run { listen, peer }),
        listen is None && peer is None ==> options_from(args, args.len(), listen, peer) == Err::<
            DirectView,
            OptionsError,
        >(OptionsError::NoAddress),
{
}

/// Each option is read with its value, and the last of several counts.
pub proof fn law_options_are_read(
    args: Seq<ArgumentView>,
    at: nat,
    listen: Option<Seq<char>>,
    peer: Option<Seq<char>>,
)
    requires
        at < args.len() < usize::MAX,
    ensures
        ({
            let arg = args[at as int];
            let read = options_from(args, at, listen, peer);
            &&& !valid_utf8(arg.raw) ==> read == Err::<DirectView, OptionsError>(
                OptionsError::NotUtf8,
            )
            &&& reads(arg, "-h"@) || reads(arg, "--help"@) ==> read == Ok::<
                DirectView,
                OptionsError,
            >(DirectView::Help)
            &&& reads(arg, "--listen"@) && at + 1 == args.len() ==> read == Err::<
                DirectView,
                OptionsError,
            >(OptionsError::ListenMissing)
            &&& reads(arg, "--listen"@) && at + 1 < args.len() ==> read == options_from(
                args,
                at + 2,
                Some(lossy(args[at as int + 1].raw)),
                peer,
            )
            &&& reads(arg, "--peer"@) && at + 1 == args.len() ==> read == Err::<
                DirectView,
                OptionsError,
            >(OptionsError::PeerMissing)
            &&& reads(arg, "--peer"@) && at + 1 < args.len() ==> read == options_from(
                args,
                at + 2,
                listen,
                Some(lossy(args[at as int + 1].raw)),
            )
            &&& valid_utf8(arg.raw) && !reads(arg, "-h"@) && !reads(arg, "--help"@) && !reads(
                arg,
                "--listen"@,
            ) && !reads(arg, "--peer"@) ==> (read matches Err(OptionsError::UnknownOption(which))
                && which == at)
        }),
{
    reveal_strlit("-h");
    reveal_strlit("--help");
    reveal_strlit("--listen");
    reveal_strlit("--peer");
    assert("-h"@.len() == 2 && "--help"@.len() == 6 && "--listen"@.len() == 8 && "--peer"@.len()
        == 6);
    assert("--help"@[2] == 'h' && "--peer"@[2] == 'p');
}

} // verus!
