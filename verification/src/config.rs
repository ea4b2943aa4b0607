//! The configuration of the desktop program.

use vstd::prelude::*;
use vstd::string::StringExecFns;
use vstd::utf8::encode_utf8;

use crate::cli::{OptionsView, SyncOptions};
use crate::text::{
    chars_of, find, is_white, lemma_position_is, lemma_position_of, lines, part, position_of,
    same_text, split_lines, string_of, texts, trim, trim_end, trim_start, trimmed,
    without_carriage_return,
};

verus! {

/// Whether this device listens or connects.
#[derive(Debug, Clone, Copy, PartialEq, Eq, Structural)]
pub enum DesktopRole {
    Listen,
    Connect,
}

/// The configuration: a role and an address.
#[derive(Debug, Clone, PartialEq, Eq)]
pub struct DesktopConfig {
    pub role: DesktopRole,
    pub address: String,
}

/// The configuration as a value.
pub ghost struct ConfigView {
    pub role: DesktopRole,
    pub address: Seq<char>,
}

impl View for DesktopConfig {
    type V = ConfigView;

    open spec fn view(&self) -> ConfigView {
        ConfigView { role: self.role, address: self.address@ }
    }
}

/// Why a configuration is refused.
#[derive(Debug, Clone, Copy, PartialEq, Eq, Structural)]
pub enum ConfigError {
    /// The address is empty, or holds a line break or an equals sign.
    InvalidAddress,
    /// The address is not one that can be listened on.
    InvalidListen,
    /// The address has no port.
    MissingPort,
    /// The address has no host, or no valid port.
    InvalidConnect,
    /// A line is neither empty, nor a comment, nor a field.
    Format,
    InvalidRole,
    UnknownField,
    MissingRole,
    MissingAddress,
}

/// Whether a character is a decimal digit.
pub open spec fn is_digit(c: char) -> bool {
    '0' <= c <= '9'
}

/// The number that decimal digits spell.
pub open spec fn number(digits: Seq<char>) -> nat
    decreases digits.len(),
{
    if digits.len() == 0 {
        0
    } else {
        number(digits.drop_last()) * 10 + (digits.last() as nat - '0' as nat) as nat
    }
}

/// Whether digits spell a number that a port can have.
pub open spec fn is_port_number(digits: Seq<char>) -> bool {
    &&& digits.len() > 0
    &&& forall|i: int| 0 <= i < digits.len() ==> is_digit(#[trigger] digits[i])
    &&& number(digits) <= u16::MAX
}

/// Whether a text is a port: its number, perhaps behind a plus sign.
pub open spec fn is_port(text: Seq<char>) -> bool {
    if text.len() > 0 && text[0] == '+' {
        is_port_number(text.skip(1))
    } else {
        is_port_number(text)
    }
}

/// The last place of a character in a text; -1 where it is not there.
pub open spec fn last_place(text: Seq<char>, c: char) -> int
    decreases text.len(),
{
    if text.len() == 0 {
        -1
    } else if text.last() == c {
        text.len() - 1
    } else {
        last_place(text.drop_last(), c)
    }
}

/// Why an address is refused that was to be connected to, if it is.
pub open spec fn connect_fault(address: Seq<char>) -> Option<ConfigError> {
    let colon = last_place(address, ':');
    if colon < 0 {
        Some(ConfigError::MissingPort)
    } else if colon == 0 || !is_port(address.skip(colon + 1)) {
        Some(ConfigError::InvalidConnect)
    } else {
        None
    }
}

/// Whether an address holds a line break or an equals sign.
pub open spec fn breaks_line(address: Seq<char>) -> bool {
    address.contains('\n') || address.contains('\r') || address.contains('=')
}

/// What a form gives: the address without white space around it, unless it is
/// refused. Whether it is a socket address is given.
pub open spec fn form_config(role: DesktopRole, text: Seq<char>, socket_address: bool) -> Result<
    ConfigView,
    ConfigError,
> {
    let address = trimmed(text);
    if address.len() == 0 || breaks_line(address) {
        Err(ConfigError::InvalidAddress)
    } else if role == DesktopRole::Listen && !socket_address {
        Err(ConfigError::InvalidListen)
    } else if role == DesktopRole::Connect && connect_fault(address) is Some {
        Err(connect_fault(address)->0)
    } else {
        Ok(ConfigView { role, address })
    }
}

/// The name of a role.
pub open spec fn role_name(role: DesktopRole) -> Seq<char> {
    match role {
        DesktopRole::Listen => "listen"@,
        DesktopRole::Connect => "connect"@,
    }
}

/// A configuration as the text of a file.
pub open spec fn config_text(config: ConfigView) -> Seq<char> {
    "role="@ + role_name(config.role) + "\naddress="@ + config.address + "\n"@
}

/// What the lines of a file say from the first on, given what lines before them
/// said.
pub open spec fn fields_from(
    lines: Seq<Seq<char>>,
    role: Option<DesktopRole>,
    address: Option<Seq<char>>,
) -> Result<(DesktopRole, Seq<char>), ConfigError>
    decreases lines.len(),
{
    if lines.len() == 0 {
        match (role, address) {
            (None, _) => Err(ConfigError::MissingRole),
            (Some(_), None) => Err(ConfigError::MissingAddress),
            (Some(role), Some(address)) => Ok((role, address)),
        }
    } else {
        let line = trimmed(lines[0]);
        let rest = lines.skip(1);
        let at = position_of(line, '=');
        let key = line.take(at);
        let value = line.skip(at + 1);
        if line.len() == 0 || line[0] == '#' {
            fields_from(rest, role, address)
        } else if at >= line.len() {
            Err(ConfigError::Format)
        } else if key == "role"@ {
            if value == "listen"@ {
                fields_from(rest, Some(DesktopRole::Listen), address)
            } else if value == "connect"@ {
                fields_from(rest, Some(DesktopRole::Connect), address)
            } else {
                Err(ConfigError::InvalidRole)
            }
        } else if key == "address"@ {
            fields_from(rest, role, Some(value))
        } else {
            Err(ConfigError::UnknownField)
        }
    }
}

/// The fields of a file.
pub open spec fn fields(contents: Seq<char>) -> Result<(DesktopRole, Seq<char>), ConfigError> {
    fields_from(lines(contents), None, None)
}

/// The configuration in a file; whether its address is a socket address is given.
pub open spec fn file_config(contents: Seq<char>, socket_address: bool) -> Result<
    ConfigView,
    ConfigError,
> {
    match fields(contents) {
        Err(error) => Err(error),
        Ok((role, address)) => form_config(role, address, socket_address),
    }
}

/// A configuration, or why there is none, as a value.
pub open spec fn config_outcome(r: Result<DesktopConfig, ConfigError>) -> Result<
    ConfigView,
    ConfigError,
> {
    match r {
        Ok(config) => Ok(config@),
        Err(error) => Err(error),
    }
}

/// More digits spell no smaller number.
proof fn lemma_number_grows(digits: Seq<char>, n: int)
    requires
        0 <= n <= digits.len(),
    ensures
        number(digits.take(n)) <= number(digits),
    decreases digits.len(),
{
    if n < digits.len() {
        lemma_number_grows(digits.drop_last(), n);
        assert(digits.drop_last().take(n) == digits.take(n));
    } else {
        assert(digits.take(n) == digits);
    }
}

/// Whether characters are a port.
fn port_is_valid(port: &[char]) -> (r: bool)
    ensures
        r == is_port(port@),
{
    let start: usize = if port.len() > 0 && port[0] == '+' {
        1
    } else {
        0
    };
    let ghost digits = port@.skip(start as int);
    proof {
        assert(port@.skip(0) == port@);
    }
    if port.len() == start {
        return false;
    }
    let mut value: u32 = 0;
    let mut i: usize = start;
    proof {
        assert(digits.take(0).len() == 0);
    }
    while i < port.len()
        invariant
            start <= i <= port@.len(),
            digits == port@.skip(start as int),
            is_port(port@) == is_port_number(digits),
            digits.len() > 0,
            forall|k: int| 0 <= k < i - start ==> is_digit(#[trigger] digits[k]),
            value == number(digits.take(i - start)),
            value <= u16::MAX,
        decreases port@.len() - i,
    {
        let c = port[i];
        proof {
            assert(digits[i - start] == c);
        }
        if c < '0' || c > '9' {
            proof {
                assert(!is_digit(digits[i - start]));
            }
            return false;
        }
        proof {
            let taken = digits.take(i + 1 - start);
            assert(taken.drop_last() == digits.take(i - start));
            assert(taken.last() == c);
            lemma_number_grows(digits, i + 1 - start);
        }
        value = value * 10 + (c as u32 - '0' as u32);
        if value > u16::MAX as u32 {
            return false;
        }
        i += 1;
    }
    proof {
        assert(digits.take(digits.len() as int) == digits);
    }
    true
}

proof fn lemma_last_place(text: Seq<char>, c: char, at: int)
    requires
        0 <= at <= text.len(),
        at > 0 ==> text[at - 1] == c,
        forall|i: int| at <= i < text.len() ==> #[trigger] text[i] != c,
    ensures
        last_place(text, c) == at - 1,
    decreases text.len(),
{
    if at < text.len() {
        assert(text.last() != c);
        assert forall|i: int| at <= i < text.drop_last().len() implies #[trigger] text.drop_last()[i]
            != c by {
            assert(text[i] != c);
        }
        lemma_last_place(text.drop_last(), c, at);
    }
}

/// Whether an address can be connected to: a host, a colon and a port.
pub fn validate_connect_address(address: &str) -> (r: Result<(), ConfigError>)
    ensures
        match connect_fault(address@) {
            Some(error) => r == Err::<(), ConfigError>(error),
            None => r == Ok::<(), ConfigError>(()),
        },
{
    let chars = chars_of(address);
    let mut at: usize = chars.len();
    while at > 0 && chars[at - 1] != ':'
        invariant
            at <= chars@.len(),
            forall|i: int| at <= i < chars@.len() ==> #[trigger] chars@[i] != ':',
        decreases at,
    {
        at -= 1;
    }
    proof {
        lemma_last_place(chars@, ':', at as int);
    }
    if at == 0 {
        return Err(ConfigError::MissingPort);
    }
    let port = vstd::slice::slice_subrange(chars.as_slice(), at, chars.len());
    proof {
        assert(port@ == address@.skip(at as int));
    }
    if at == 1 || !port_is_valid(port) {
        return Err(ConfigError::InvalidConnect);
    }
    Ok(())
}

/// Whether characters hold a line break or an equals sign.
fn holds_break(chars: &[char]) -> (r: bool)
    ensures
        r == breaks_line(chars@),
{
    let mut i: usize = 0;
    while i < chars.len()
        invariant
            i <= chars@.len(),
            forall|k: int|
                0 <= k < i ==> #[trigger] chars@[k] != '\n' && chars@[k] != '\r' && chars@[k] != '=',
        decreases chars@.len() - i,
    {
        let c = chars[i];
        if c == '\n' || c == '\r' || c == '=' {
            proof {
                assert(chars@.contains(c));
            }
            return true;
        }
        i += 1;
    }
    false
}

impl DesktopConfig {
    /// A configuration from a form. Whether the address, without the white space
    /// around it, reads as a socket address is given.
    pub fn from_form(role: DesktopRole, address: &str, socket_address: bool) -> (r: Result<
        DesktopConfig,
        ConfigError,
    >)
        ensures
            config_outcome(r) == form_config(role, address@, socket_address),
    {
        let chars = chars_of(address);
        let chars = trim(chars.as_slice());
        if chars.len() == 0 || holds_break(chars.as_slice()) {
            return Err(ConfigError::InvalidAddress);
        }
        let address = string_of(chars.as_slice());
        match role {
            DesktopRole::Listen => {
                if !socket_address {
                    return Err(ConfigError::InvalidListen);
                }
            },
            DesktopRole::Connect => {
                if let Err(error) = validate_connect_address(address.as_str()) {
                    return Err(error);
                }
            },
        }
        Ok(DesktopConfig { role, address })
    }

    /// How to synchronise with this configuration: from the tray.
    pub fn sync_options(&self) -> (options: SyncOptions)
        ensures
            options@ == match self@.role {
                DesktopRole::Listen => (OptionsView {
                    listen: Some(self@.address),
                    connect: None,
                    tray: true,
                }),
                DesktopRole::Connect => (OptionsView {
                    listen: None,
                    connect: Some(self@.address),
                    tray: true,
                }),
            },
    {
        match self.role {
            DesktopRole::Listen => SyncOptions {
                listen: Some(self.address.clone()),
                connect: None,
                tray: true,
            },
            DesktopRole::Connect => SyncOptions {
                listen: None,
                connect: Some(self.address.clone()),
                tray: true,
            },
        }
    }

    /// The configuration as the text of a file.
    pub fn encode(&self) -> (text: String)
        ensures
            text@ == config_text(self@),
    {
        let mut text = String::from_str("role=");
        match self.role {
            DesktopRole::Listen => {
                text.append("listen");
            },
            DesktopRole::Connect => {
                text.append("connect");
            },
        }
        text.append("\naddress=");
        text.append(self.address.as_str());
        text.append("\n");
        text
    }

    /// The fields of a file.
    pub fn decode_fields(contents: &str) -> (r: Result<(DesktopRole, String), ConfigError>)
        ensures
            match fields(contents@) {
                Ok((role, address)) => r matches Ok(found) && found.0 == role && found.1@ == address,
                Err(error) => r == Err::<(DesktopRole, String), ConfigError>(error),
            },
    {
        let chars = chars_of(contents);
        let all = split_lines(chars.as_slice());
        let ghost whole = lines(contents@);
        let mut role: Option<DesktopRole> = None;
        let mut address: Option<String> = None;
        let mut i: usize = 0;
        proof {
            assert(whole.skip(0) == whole);
        }
        while i < all.len()
            invariant
                i <= all@.len(),
                whole == texts(all@),
                whole == lines(contents@),
                fields_from(whole, None, None) == fields_from(
                    whole.skip(i as int),
                    role,
                    match address {
                        Some(text) => Some(text@),
                        None => None,
                    },
                ),
            decreases all@.len() - i,
        {
            let line = trim(all[i].as_slice());
            proof {
                assert(whole[i as int] == all@[i as int]@);
                assert(whole.skip(i as int)[0] == whole[i as int]);
                assert(whole.skip(i as int).skip(1) == whole.skip(i as int + 1));
            }
            if line.len() > 0 && line[0] != '#' {
                let at: usize = find(line.as_slice(), '=');
                proof {
                    lemma_position_of(line@, '=');
                }
                if at >= line.len() {
                    return Err(ConfigError::Format);
                }
                let key = part(line.as_slice(), 0, at);
                let value = part(line.as_slice(), at + 1, line.len());
                proof {
                    assert(key@ == line@.take(at as int));
                    assert(value@ == line@.skip(at as int + 1));
                }
                let key = string_of(key.as_slice());
                let value = string_of(value.as_slice());
                if same_text(key.as_str(), "role") {
                    if same_text(value.as_str(), "listen") {
                        role = Some(DesktopRole::Listen);
                    } else if same_text(value.as_str(), "connect") {
                        role = Some(DesktopRole::Connect);
                    } else {
                        return Err(ConfigError::InvalidRole);
                    }
                } else if same_text(key.as_str(), "address") {
                    address = Some(value);
                } else {
                    return Err(ConfigError::UnknownField);
                }
            }
            i += 1;
        }
        proof {
            assert(whole.skip(all@.len() as int).len() == 0);
        }
        match (role, address) {
            (None, _) => Err(ConfigError::MissingRole),
            (Some(_), None) => Err(ConfigError::MissingAddress),
            (Some(role), Some(address)) => Ok((role, address)),
        }
    }

    /// Reads the text of a file. Whether its address, without the white space around
    /// it, reads as a socket address is given.
    pub fn decode(contents: &str, socket_address: bool) -> (r: Result<DesktopConfig, ConfigError>)
        ensures
            config_outcome(r) == file_config(contents@, socket_address),
    {
        match DesktopConfig::decode_fields(contents) {
            Ok((role, address)) => DesktopConfig::from_form(role, address.as_str(), socket_address),
            Err(error) => Err(error),
        }
    }
}

/// Text that neither begins nor ends with white space stays as it is.
proof fn lemma_trimmed_same(s: Seq<char>)
    requires
        s.len() > 0,
        !is_white(s[0]),
        !is_white(s.last()),
    ensures
        trimmed(s) == s,
{
    assert(trim_start(s) == s);
    assert(trim_end(s) == s);
}

/// Trimmed text neither begins nor ends with white space.
proof fn lemma_trimmed_ends(s: Seq<char>)
    ensures
        trimmed(s).len() > 0 ==> !is_white(trimmed(s)[0]) && !is_white(trimmed(s).last()),
{
    lemma_trim_start(s);
    lemma_trim_end(trim_start(s));
}

proof fn lemma_trim_start(s: Seq<char>)
    ensures
        trim_start(s).len() > 0 ==> !is_white(trim_start(s)[0]),
    decreases s.len(),
{
    if s.len() > 0 && is_white(s[0]) {
        lemma_trim_start(s.skip(1));
    }
}

proof fn lemma_trim_end(s: Seq<char>)
    ensures
        trim_end(s).len() <= s.len(),
        trim_end(s) == s.take(trim_end(s).len() as int),
        trim_end(s).len() > 0 ==> !is_white(trim_end(s).last()),
    decreases s.len(),
{
    if s.len() > 0 && is_white(s.last()) {
        lemma_trim_end(s.drop_last());
        let n = trim_end(s).len() as int;
        assert(s.drop_last().take(n) == s.take(n));
    } else {
        assert(s.take(s.len() as int) == s);
    }
}

/// Two lines, each with its line feed.
proof fn lemma_two_lines(first: Seq<char>, second: Seq<char>)
    requires
        !first.contains('\n'),
        !second.contains('\n'),
        first.len() > 0,
        second.len() > 0,
        first.last() != '\r',
        second.last() != '\r',
    ensures
        lines(first.push('\n') + second.push('\n')) == seq![first, second],
{
    let all = first.push('\n') + second.push('\n');
    let n = first.len() as int;
    assert forall|i: int| 0 <= i < n implies all[i] != '\n' by {
        assert(first.contains(first[i]));
        assert(all[i] == first[i]);
    }
    lemma_position_is(all, '\n', n);
    assert(all.take(n) == first);
    let rest = all.skip(n + 1);
    assert(rest == second.push('\n'));
    let m = second.len() as int;
    assert forall|i: int| 0 <= i < m implies rest[i] != '\n' by {
        assert(second.contains(second[i]));
        assert(rest[i] == second[i]);
    }
    lemma_position_is(rest, '\n', m);
    assert(rest.take(m) == second);
    assert(rest.skip(m + 1).len() == 0);
    assert(lines(rest.skip(m + 1)) == Seq::<Seq<char>>::empty());
    assert(without_carriage_return(first) == first);
    assert(without_carriage_return(second) == second);
    assert(lines(rest) == seq![second]);
    assert(lines(all) == seq![first, second]);
}

/// One field, in a line of its own.
proof fn lemma_field(key: Seq<char>, value: Seq<char>)
    requires
        !key.contains('='),
        key.len() > 0,
        value.len() > 0,
        !is_white(key[0]),
        !is_white(value.last()),
        key[0] != '#',
    ensures
        ({
            let line = key.push('=') + value;
            let at = position_of(line, '=');
            &&& trimmed(line) == line
            &&& line.len() > 0
            &&& line[0] != '#'
            &&& at < line.len()
            &&& line.take(at) == key
            &&& line.skip(at + 1) == value
        }),
{
    let line = key.push('=') + value;
    let n = key.len() as int;
    assert(line.last() == value.last());
    lemma_trimmed_same(line);
    assert forall|i: int| 0 <= i < n implies line[i] != '=' by {
        assert(key.contains(key[i]));
        assert(line[i] == key[i]);
    }
    lemma_position_is(line, '=', n);
    assert(line.take(n) == key);
    assert(line.skip(n + 1) == value);
}

/// A configuration that a form gave is read back from its file as it was.
pub proof fn law_config_round_trip(role: DesktopRole, text: Seq<char>, socket_address: bool)
    ensures
        form_config(role, text, socket_address) matches Ok(config) ==> file_config(
            config_text(config),
            socket_address,
        ) == Ok::<ConfigView, ConfigError>(config),
{
    if let Ok(config) = form_config(role, text, socket_address) {
        let address = config.address;
        lemma_trimmed_ends(text);
        reveal_strlit("role=");
        reveal_strlit("\naddress=");
        reveal_strlit("\n");
        reveal_strlit("listen");
        reveal_strlit("connect");
        reveal_strlit("role");
        reveal_strlit("address");
        let name = role_name(role);
        let first = "role"@.push('=') + name;
        let second = "address"@.push('=') + address;
        assert(config_text(config) == first.push('\n') + second.push('\n'));
        assert(!name.contains('\n'));
        assert(!first.contains('\n')) by {
            if first.contains('\n') {
                let i = choose|i: int| 0 <= i < first.len() && first[i] == '\n';
                if i >= 5 {
                    assert(name[i - 5] == '\n');
                }
            }
        }
        assert(!second.contains('\n')) by {
            if second.contains('\n') {
                let i = choose|i: int| 0 <= i < second.len() && second[i] == '\n';
                if i >= 8 {
                    assert(address[i - 8] == '\n');
                    assert(address.contains('\n'));
                }
            }
        }
        assert(second.last() == address.last());
        assert(address.contains(address.last()));
        lemma_two_lines(first, second);
        lemma_field("role"@, name);
        lemma_field("address"@, address);
        let all = lines(config_text(config));
        assert(all == seq![first, second]);
        assert(all.skip(1) == seq![second]);
        assert(all.skip(1).skip(1) == Seq::<Seq<char>>::empty());
        assert("listen"@ != "connect"@) by {
            assert("listen"@.len() != "connect"@.len());
        }
        assert("address"@ != "role"@) by {
            assert("address"@.len() != "role"@.len());
        }
        assert(all[0] == first);
        assert(all.skip(1)[0] == second);
        assert(fields_from(all.skip(1).skip(1), Some(role), Some(address)) == Ok::<
            (DesktopRole, Seq<char>),
            ConfigError,
        >((role, address)));
        assert(fields_from(all.skip(1), Some(role), None) == Ok::<
            (DesktopRole, Seq<char>),
            ConfigError,
        >((role, address)));
        assert(fields_from(all, None, None) == fields_from(all.skip(1), Some(role), None));
        lemma_trimmed_same(address);
    }
}

/// The path of a name below a directory, which is the current one where it is empty.
pub open spec fn path_below(directory: Seq<u8>, name: Seq<u8>) -> Seq<u8> {
    if directory.len() == 0 || directory.last() == '/' as u8 {
        directory + name
    } else {
        directory.push('/' as u8) + name
    }
}

/// Where configurations are kept: in the directory that is set aside for them, else in
/// `.config` below the home directory. A directory that is set aside without a name
/// is none.
pub open spec fn config_base(config_home: Option<Seq<u8>>, home: Option<Seq<u8>>) -> Option<
    Seq<u8>,
> {
    match (config_home, home) {
        (Some(directory), _) if directory.len() > 0 => Some(directory),
        (_, Some(home)) => Some(path_below(home, encode_utf8(".config"@))),
        _ => None,
    }
}

/// The bytes of a path, if there is one.
pub open spec fn path_bytes(path: Option<Vec<u8>>) -> Option<Seq<u8>> {
    match path {
        Some(path) => Some(path@),
        None => None,
    }
}

fn below(directory: Vec<u8>, name: &str) -> (path: Vec<u8>)
    ensures
        path@ == path_below(directory@, encode_utf8(name@)),
{
    let mut path = directory;
    let length: usize = path.len();
    if length > 0 && path[length - 1] != '/' as u8 {
        path.push('/' as u8);
    }
    path.extend_from_slice(name.as_bytes());
    path
}

/// The configuration file, from the directory that is set aside for configurations
/// and the home directory; nothing where neither is known.
pub fn config_path(config_home: Option<Vec<u8>>, home: Option<Vec<u8>>) -> (r: Option<Vec<u8>>)
    ensures
        path_bytes(r) == match config_base(path_bytes(config_home), path_bytes(home)) {
            Some(base) => Some(
                path_below(path_below(base, encode_utf8("clipx"@)), encode_utf8("config"@)),
            ),
            None => None,
        },
{
    let base = match (config_home, home) {
        (Some(directory), home) => {
            if directory.len() > 0 {
                directory
            } else {
                match home {
                    Some(home) => below(home, ".config"),
                    None => {
                        return None;
                    },
                }
            }
        },
        (None, Some(home)) => below(home, ".config"),
        (None, None) => {
            return None;
        },
    };
    Some(below(below(base, "clipx"), "config"))
}

} // verus!
