//! Which settings are accepted.

use vstd::prelude::*;

use crate::config::{
    config_base, config_text, connect_fault, fields, fields_from, file_config, form_config, is_port,
    last_place, number, path_below, ConfigError, ConfigView, DesktopRole,
};
use crate::laws::text::{digits_value, law_character_is_found};
use crate::text::{lines, trimmed};

verus! {

proof fn lemma_number(digits: Seq<char>)
    requires
        forall|i: int| 0 <= i < digits.len() ==> '0' <= #[trigger] digits[i] <= '9',
    ensures
        number(digits) == digits_value(digits, 10),
    decreases digits.len(),
{
    if digits.len() > 0 {
        assert('0' <= digits[digits.len() - 1] <= '9');
        assert forall|i: int| 0 <= i < digits.drop_last().len() implies '0'
            <= #[trigger] digits.drop_last()[i] <= '9' by {
            assert('0' <= digits[i] <= '9');
        }
        lemma_number(digits.drop_last());
    }
}

/// Digits are a port if and only if there are some and they stand for a number of sixteen
/// bits; a plus sign may stand before them, and nothing else may stand among them.
pub proof fn law_ports(digits: Seq<char>)
    ensures
        (forall|i: int| 0 <= i < digits.len() ==> '0' <= #[trigger] digits[i] <= '9') ==> {
            &&& is_port(digits) <==> digits.len() > 0 && digits_value(digits, 10) <= 65535
            &&& is_port(seq!['+'] + digits) <==> digits.len() > 0 && digits_value(digits, 10)
                <= 65535
        },
        (exists|i: int| 0 <= i < digits.len() && !('0' <= #[trigger] digits[i] <= '9'))
            && digits[0] != '+' ==> !is_port(digits),
        (exists|i: int| 1 <= i < digits.len() && !('0' <= #[trigger] digits[i] <= '9'))
            ==> !is_port(digits),
        digits.len() == 0 ==> !is_port(digits),
{
    if forall|i: int| 0 <= i < digits.len() ==> '0' <= #[trigger] digits[i] <= '9' {
        lemma_number(digits);
        assert((seq!['+'] + digits).skip(1) == digits);
        if digits.len() > 0 {
            assert('0' <= digits[0] <= '9');
        }
    }
    if exists|i: int| 1 <= i < digits.len() && !('0' <= #[trigger] digits[i] <= '9') {
        let i = choose|i: int| 1 <= i < digits.len() && !('0' <= #[trigger] digits[i] <= '9');
        assert(digits.skip(1)[i - 1] == digits[i]);
    }
}

/// A character is last where none follows it.
pub proof fn law_last_place(front: Seq<char>, c: char, back: Seq<char>)
    requires
        forall|i: int| 0 <= i < back.len() ==> #[trigger] back[i] != c,
    ensures
        last_place(front.push(c) + back, c) == front.len(),
        last_place(back, c) < 0,
    decreases back.len(),
{
    let all = front.push(c) + back;
    if back.len() > 0 {
        assert(back[back.len() - 1] != c);
        assert(all.last() == back[back.len() - 1]);
        assert(all.drop_last() == front.push(c) + back.drop_last());
        assert forall|i: int| 0 <= i < back.drop_last().len() implies #[trigger] back.drop_last()[i]
            != c by {
            assert(back[i] != c);
        }
        law_last_place(front, c, back.drop_last());
    } else {
        assert(all.last() == c);
    }
}

/// An address to connect to is a host, a colon and a port, and the last colon parts them.
pub proof fn law_addresses_to_connect_to(host: Seq<char>, port: Seq<char>)
    requires
        forall|i: int| 0 <= i < port.len() ==> #[trigger] port[i] != ':',
    ensures
        connect_fault(port) == Some(ConfigError::MissingPort),
        connect_fault(host.push(':') + port) is None <==> host.len() > 0 && is_port(port),
        connect_fault(host.push(':') + port) is Some ==> connect_fault(host.push(':') + port)
            == Some(ConfigError::InvalidConnect),
{
    law_last_place(host, ':', port);
    assert((host.push(':') + port).skip(host.len() as int + 1) == port);
}

/// A form is accepted if and only if its address, without the white space around it, is not
/// empty, holds no line break and no equals sign, and is one to listen on or to connect
/// to; and then the settings are that role and that address.
pub proof fn law_forms_that_are_accepted(role: DesktopRole, text: Seq<char>, socket_address: bool)
    ensures
        ({
            let address = trimmed(text);
            let plain = address.len() > 0 && !address.contains('\n') && !address.contains('\r')
                && !address.contains('=');
            let fits = match role {
                DesktopRole::Listen => socket_address,
                DesktopRole::Connect => connect_fault(address) is None,
            };
            &&& plain && fits ==> form_config(role, text, socket_address) == Ok::<
                ConfigView,
                ConfigError,
            >(ConfigView { role, address })
            &&& !plain ==> form_config(role, text, socket_address) == Err::<
                ConfigView,
                ConfigError,
            >(ConfigError::InvalidAddress)
            &&& plain && !fits && role == DesktopRole::Listen ==> form_config(
                role,
                text,
                socket_address,
            ) == Err::<ConfigView, ConfigError>(ConfigError::InvalidListen)
            &&& plain && !fits && role == DesktopRole::Connect ==> form_config(
                role,
                text,
                socket_address,
            ) == Err::<ConfigView, ConfigError>(connect_fault(address)->0)
        }),
{
}

/// Settings are written in two lines, the role and the address.
pub proof fn law_settings_are_written(address: Seq<char>)
    ensures
        config_text(ConfigView { role: DesktopRole::Listen, address }) == "role=listen\naddress="@
            + address + "\n"@,
        config_text(ConfigView { role: DesktopRole::Connect, address })
            == "role=connect\naddress="@ + address + "\n"@,
{
    reveal_strlit("role=");
    reveal_strlit("listen");
    reveal_strlit("connect");
    reveal_strlit("\naddress=");
    reveal_strlit("role=listen\naddress=");
    reveal_strlit("role=connect\naddress=");
    assert("role="@ + "listen"@ + "\naddress="@ == "role=listen\naddress="@);
    assert("role="@ + "connect"@ + "\naddress="@ == "role=connect\naddress="@);
}

/// Empty lines and comments say nothing.
pub proof fn law_comments_say_nothing(
    line: Seq<char>,
    rest: Seq<Seq<char>>,
    role: Option<DesktopRole>,
    address: Option<Seq<char>>,
)
    requires
        trimmed(line).len() == 0 || trimmed(line)[0] == '#',
    ensures
        fields_from(seq![line] + rest, role, address) == fields_from(rest, role, address),
{
    assert((seq![line] + rest).skip(1) == rest);
}

/// A line that gives the role or the address sets it, whatever was set before; any other
/// role, any other field and a line without an equals sign is refused.
pub proof fn law_lines_set_fields(
    line: Seq<char>,
    key: Seq<char>,
    value: Seq<char>,
    rest: Seq<Seq<char>>,
    role: Option<DesktopRole>,
    address: Option<Seq<char>>,
)
    requires
        trimmed(line).len() > 0,
        trimmed(line)[0] != '#',
        forall|i: int| 0 <= i < key.len() ==> #[trigger] key[i] != '=',
    ensures
        ({
            let read = fields_from(seq![line] + rest, role, address);
            &&& trimmed(line) == key ==> read == Err::<(DesktopRole, Seq<char>), ConfigError>(
                ConfigError::Format,
            )
            &&& trimmed(line) == key.push('=') + value ==> {
                &&& key == "address"@ ==> read == fields_from(rest, role, Some(value))
                &&& key == "role"@ && value == "listen"@ ==> read == fields_from(
                    rest,
                    Some(DesktopRole::Listen),
                    address,
                )
                &&& key == "role"@ && value == "connect"@ ==> read == fields_from(
                    rest,
                    Some(DesktopRole::Connect),
                    address,
                )
                &&& key == "role"@ && value != "listen"@ && value != "connect"@ ==> read == Err::<
                    (DesktopRole, Seq<char>),
                    ConfigError,
                >(ConfigError::InvalidRole)
                &&& key != "role"@ && key != "address"@ ==> read == Err::<
                    (DesktopRole, Seq<char>),
                    ConfigError,
                >(ConfigError::UnknownField)
            }
        }),
{
    let all = seq![line] + rest;
    assert(all.skip(1) == rest);
    assert(all[0] == line);
    reveal_strlit("role");
    reveal_strlit("address");
    reveal_strlit("listen");
    reveal_strlit("connect");
    let read = trimmed(line);
    if read == key {
        law_character_is_found(read, '=', read.len() as int);
    } else if read == key.push('=') + value {
        assert forall|i: int| 0 <= i < key.len() implies #[trigger] read[i] != '=' by {
            assert(key[i] != '=');
        }
        assert(read[key.len() as int] == '=');
        law_character_is_found(read, '=', key.len() as int);
        assert(read.take(key.len() as int) == key);
        assert(read.skip(key.len() as int + 1) == value);
        assert("role"@ != "address"@) by {
            assert("role"@.len() == 4);
            assert("address"@.len() == 7);
        }
        assert("listen"@ != "connect"@) by {
            assert("listen"@.len() == 6);
            assert("connect"@.len() == 7);
        }
    }
}

/// A file of settings has to give both fields.
pub proof fn law_both_fields_are_needed(
    role: DesktopRole,
    address: Seq<char>,
    known: Option<Seq<char>>,
)
    ensures
        fields_from(Seq::<Seq<char>>::empty(), None, known) == Err::<
            (DesktopRole, Seq<char>),
            ConfigError,
        >(ConfigError::MissingRole),
        fields_from(Seq::<Seq<char>>::empty(), Some(role), None) == Err::<
            (DesktopRole, Seq<char>),
            ConfigError,
        >(ConfigError::MissingAddress),
        fields_from(Seq::<Seq<char>>::empty(), Some(role), Some(address)) == Ok::<
            (DesktopRole, Seq<char>),
            ConfigError,
        >((role, address)),
{
}

/// A file of settings is read line by line from nothing, and its fields are then judged as
/// those of a form are.
pub proof fn law_files_are_judged_as_forms(contents: Seq<char>, socket_address: bool)
    ensures
        ({
            let read = fields_from(lines(contents), None, None);
            &&& fields(contents) == read
            &&& read matches Ok(found) ==> file_config(contents, socket_address) == form_config(
                found.0,
                found.1,
                socket_address,
            )
            &&& read matches Err(error) ==> file_config(contents, socket_address) == Err::<
                ConfigView,
                ConfigError,
            >(error)
        }),
{
}

/// A name stands below a directory behind one slash.
pub proof fn law_names_stand_below(directory: Seq<u8>, name: Seq<u8>)
    ensures
        directory.len() == 0 ==> path_below(directory, name) == name,
        directory.len() > 0 && directory.last() == 0x2f ==> path_below(directory, name)
            == directory + name,
        directory.len() > 0 && directory.last() != 0x2f ==> path_below(directory, name)
            == directory + seq![0x2fu8] + name,
{
    assert(directory.push(0x2f) + name == directory + seq![0x2fu8] + name);
    if directory.len() == 0 {
        assert(directory + name == name);
    }
}

/// Settings stand in the directory that is named for them, and without one in the home
/// directory.
pub proof fn law_where_settings_stand(home: Seq<u8>, named: Seq<u8>, other: Option<Seq<u8>>)
    ensures
        named.len() > 0 ==> config_base(Some(named), other) == Some(named),
        config_base(None, Some(home)) == Some(
            path_below(home, vstd::utf8::encode_utf8(".config"@)),
        ),
        named.len() == 0 ==> config_base(Some(named), Some(home)) == Some(
            path_below(home, vstd::utf8::encode_utf8(".config"@)),
        ),
        named.len() == 0 ==> config_base(Some(named), None) is None,
        config_base(None, None) is None,
{
}

} // verus!
