//! The device panel and the first-time setup: what goes into their pages, and what
//! comes back from them.

use vstd::prelude::*;
use vstd::string::StringExecFns;

use crate::config::DesktopRole;
use crate::text::{begins_at, begins_with, chars_of, part, replace_all, replaced, same_text, string_of};

verus! {

/// How a character is written between single quotes in a script.
pub open spec fn js_char(c: char) -> Seq<char> {
    if c == '\\' {
        seq!['\\', '\\']
    } else if c == '\'' {
        seq!['\\', '\'']
    } else if c == '\n' {
        seq!['\\', 'n']
    } else if c == '\r' {
        seq!['\\', 'r']
    } else {
        seq![c]
    }
}

/// How a text is written between single quotes in a script.
pub open spec fn js_body(value: Seq<char>) -> Seq<char>
    decreases value.len(),
{
    if value.len() == 0 {
        seq![]
    } else {
        js_body(value.drop_last()) + js_char(value.last())
    }
}

/// A text as a string of a script.
pub open spec fn js_text(value: Seq<char>) -> Seq<char> {
    (seq!['\''] + js_body(value)).push('\'')
}

/// Writes a text as a string of a script.
pub fn js_string(value: &str) -> (r: String)
    ensures
        r@ == js_text(value@),
{
    let chars = chars_of(value);
    let mut r = String::new();
    r.push('\'');
    let mut i: usize = 0;
    proof {
        assert(r@ == seq!['\''] + js_body(chars@.take(0)));
    }
    while i < chars.len()
        invariant
            i <= chars@.len(),
            r@ == seq!['\''] + js_body(chars@.take(i as int)),
        decreases chars@.len() - i,
    {
        let c = chars[i];
        let ghost before = r@;
        if c == '\\' {
            r.push('\\');
            r.push('\\');
        } else if c == '\'' {
            r.push('\\');
            r.push('\'');
        } else if c == '\n' {
            r.push('\\');
            r.push('n');
        } else if c == '\r' {
            r.push('\\');
            r.push('r');
        } else {
            r.push(c);
        }
        proof {
            let next = chars@.take(i as int + 1);
            assert(next.drop_last() == chars@.take(i as int));
            assert(r@ == before + js_char(c));
            assert(seq!['\''] + (js_body(next.drop_last()) + js_char(c)) == (seq!['\''] + js_body(
                next.drop_last(),
            )) + js_char(c));
        }
        i += 1;
    }
    proof {
        assert(chars@.take(chars@.len() as int) == chars@);
    }
    r.push('\'');
    r
}

/// What stands between the quotes of a string is read back by this: a backslash
/// makes a break of the letter that follows it, or keeps what follows it.
pub open spec fn js_read(body: Seq<char>) -> Seq<char>
    decreases body.len(),
{
    if body.len() == 0 {
        seq![]
    } else if body[0] == '\\' && body.len() > 1 {
        let c = if body[1] == 'n' {
            '\n'
        } else if body[1] == 'r' {
            '\r'
        } else {
            body[1]
        };
        seq![c] + js_read(body.skip(2))
    } else {
        seq![body[0]] + js_read(body.skip(1))
    }
}

proof fn lemma_js_body_first(value: Seq<char>)
    requires
        value.len() > 0,
    ensures
        js_body(value) == js_char(value[0]) + js_body(value.skip(1)),
    decreases value.len(),
{
    if value.len() == 1 {
        assert(value.drop_last() == Seq::<char>::empty());
        assert(value.skip(1) == Seq::<char>::empty());
        assert(js_body(value.drop_last()) + js_char(value.last()) == js_char(value[0]));
        assert(js_char(value[0]) + js_body(value.skip(1)) == js_char(value[0]));
    } else {
        lemma_js_body_first(value.drop_last());
        assert(value.drop_last().skip(1) == value.skip(1).drop_last());
        assert(js_char(value[0]) + js_body(value.skip(1).drop_last()) + js_char(value.last())
            == js_char(value[0]) + (js_body(value.skip(1).drop_last()) + js_char(value.last())));
    }
}

/// A text that was written as a string of a script reads back as it was, whatever
/// it holds.
pub proof fn law_js_string_round_trip(value: Seq<char>)
    ensures
        js_read(js_body(value)) == value,
    decreases value.len(),
{
    if value.len() > 0 {
        let c = value[0];
        let rest = value.skip(1);
        lemma_js_body_first(value);
        law_js_string_round_trip(rest);
        let body = js_body(value);
        let head = js_char(c);
        assert(body == head + js_body(rest));
        if head.len() == 2 {
            assert(body.skip(2) == js_body(rest));
            assert(body[0] == head[0] && body[1] == head[1]);
        } else {
            assert(body.skip(1) == js_body(rest));
            assert(body[0] == c);
        }
        assert(seq![c] + rest == value);
    }
}

/// The views of a list of texts.
pub open spec fn string_views(values: Seq<String>) -> Seq<Seq<char>> {
    values.map_values(|s: String| s@)
}

/// Strings of a script, with commas between them.
pub open spec fn js_items(values: Seq<Seq<char>>) -> Seq<char>
    decreases values.len(),
{
    if values.len() == 0 {
        seq![]
    } else if values.len() == 1 {
        js_text(values[0])
    } else {
        js_items(values.drop_last()).push(',') + js_text(values.last())
    }
}

/// Texts as an array of a script.
pub open spec fn js_list(values: Seq<Seq<char>>) -> Seq<char> {
    (seq!['['] + js_items(values)).push(']')
}

/// Writes texts as an array of a script.
pub fn js_array(values: &Vec<String>) -> (r: String)
    ensures
        r@ == js_list(string_views(values@)),
{
    let ghost all = string_views(values@);
    let mut r = String::new();
    r.push('[');
    let mut i: usize = 0;
    proof {
        assert(r@ == seq!['['] + js_items(all.take(0)));
    }
    while i < values.len()
        invariant
            i <= values@.len(),
            all == string_views(values@),
            r@ == seq!['['] + js_items(all.take(i as int)),
        decreases values@.len() - i,
    {
        let ghost before = r@;
        let ghost next = all.take(i as int + 1);
        proof {
            assert(next.drop_last() == all.take(i as int));
            assert(all[i as int] == values@[i as int]@);
        }
        if i > 0 {
            r.push(',');
        }
        let item = js_string(values[i].as_str());
        r.append(item.as_str());
        proof {
            assert(r@ == seq!['['] + js_items(next));
        }
        i += 1;
    }
    proof {
        assert(all.take(all.len() as int) == all);
    }
    r.push(']');
    r
}

/// How a character is written in the text of a page.
pub open spec fn html_char(c: char) -> Seq<char> {
    if c == '&' {
        "&amp;"@
    } else if c == '<' {
        "&lt;"@
    } else if c == '>' {
        "&gt;"@
    } else {
        seq![c]
    }
}

/// How a text is written in a page.
pub open spec fn html_of(value: Seq<char>) -> Seq<char>
    decreases value.len(),
{
    if value.len() == 0 {
        seq![]
    } else {
        html_of(value.drop_last()) + html_char(value.last())
    }
}

/// Writes a text for a page.
pub fn html_text(value: &str) -> (r: String)
    ensures
        r@ == html_of(value@),
{
    let chars = chars_of(value);
    let mut r = String::new();
    let mut i: usize = 0;
    proof {
        assert(r@ == html_of(chars@.take(0)));
    }
    while i < chars.len()
        invariant
            i <= chars@.len(),
            r@ == html_of(chars@.take(i as int)),
        decreases chars@.len() - i,
    {
        let c = chars[i];
        let ghost before = r@;
        if c == '&' {
            r.append("&amp;");
        } else if c == '<' {
            r.append("&lt;");
        } else if c == '>' {
            r.append("&gt;");
        } else {
            r.push(c);
        }
        proof {
            assert(chars@.take(i as int + 1).drop_last() == chars@.take(i as int));
            assert(r@ == before + html_char(c));
        }
        i += 1;
    }
    proof {
        assert(chars@.take(chars@.len() as int) == chars@);
    }
    r
}

/// Text that was written for a page holds no tag: no angle bracket is left in it.
pub proof fn law_html_text_has_no_tags(value: Seq<char>)
    ensures
        !html_of(value).contains('<'),
        !html_of(value).contains('>'),
    decreases value.len(),
{
    if value.len() > 0 {
        law_html_text_has_no_tags(value.drop_last());
        reveal_strlit("&amp;");
        reveal_strlit("&lt;");
        reveal_strlit("&gt;");
        let before = html_of(value.drop_last());
        let last = html_char(value.last());
        let all = html_of(value);
        assert forall|i: int| 0 <= i < all.len() implies all[i] != '<' && all[i] != '>' by {
            if i < before.len() {
                assert(all[i] == before[i]);
                assert(before.contains(before[i]));
            } else {
                assert(all[i] == last[i - before.len()]);
            }
        }
    }
}

/// An address to show, or nothing.
pub open spec fn shown(address: Option<Seq<char>>) -> Seq<char> {
    match address {
        Some(address) => html_of(address),
        None => seq![],
    }
}

/// The panel's page: what is to be filled in, filled in.
pub open spec fn page(
    template: Seq<char>,
    listen: Option<Seq<char>>,
    connect: Option<Seq<char>>,
) -> Seq<char> {
    let mode = if listen is Some {
        "true"@
    } else {
        "false"@
    };
    replaced(
        replaced(
            replaced(template, "__LISTEN_MODE__"@, mode),
            "__LISTEN_ADDRESS_DISPLAY__"@,
            shown(listen),
        ),
        "__CONNECT_TARGET_DISPLAY__"@,
        shown(connect),
    )
}

/// Fills in the panel's page.
pub fn panel_html(template: &str, listen: Option<&str>, connect: Option<&str>) -> (r: String)
    ensures
        r@ == page(
            template@,
            match listen {
                Some(address) => Some(address@),
                None => None,
            },
            match connect {
                Some(address) => Some(address@),
                None => None,
            },
        ),
{
    proof {
        reveal_strlit("__LISTEN_MODE__");
        reveal_strlit("__LISTEN_ADDRESS_DISPLAY__");
        reveal_strlit("__CONNECT_TARGET_DISPLAY__");
    }
    let mode = if listen.is_some() {
        "true"
    } else {
        "false"
    };
    let listen_text = match listen {
        Some(address) => html_text(address),
        None => String::new(),
    };
    let connect_text = match connect {
        Some(address) => html_text(address),
        None => String::new(),
    };
    proof {
        assert(listen is None ==> listen_text@ == Seq::<char>::empty());
        assert(connect is None ==> connect_text@ == Seq::<char>::empty());
    }
    let first = replace_all(template, "__LISTEN_MODE__", mode);
    let second = replace_all(first.as_str(), "__LISTEN_ADDRESS_DISPLAY__", listen_text.as_str());
    replace_all(second.as_str(), "__CONNECT_TARGET_DISPLAY__", connect_text.as_str())
}

fn same_texts(a: &Vec<String>, b: &Vec<String>) -> (r: bool)
    ensures
        r == (string_views(a@) == string_views(b@)),
{
    if a.len() != b.len() {
        proof {
            assert(string_views(a@).len() != string_views(b@).len());
        }
        return false;
    }
    let mut i: usize = 0;
    while i < a.len()
        invariant
            i <= a@.len(),
            a@.len() == b@.len(),
            forall|k: int| 0 <= k < i ==> string_views(a@)[k] == string_views(b@)[k],
        decreases a@.len() - i,
    {
        proof {
            assert(string_views(a@)[i as int] == a@[i as int]@);
            assert(string_views(b@)[i as int] == b@[i as int]@);
        }
        if !same_text(a[i].as_str(), b[i].as_str()) {
            return false;
        }
        i += 1;
    }
    proof {
        assert(string_views(a@) == string_views(b@));
    }
    true
}

/// The script that shows the connected devices in the panel; nothing where they are
/// those that it shows already.
pub fn set_peer_addresses(last: &Vec<String>, addresses: &Vec<String>) -> (r: Option<String>)
    ensures
        r is None <==> string_views(last@) == string_views(addresses@),
        r matches Some(script) ==> script@ == "window.clipxSetPeers("@ + js_list(
            string_views(addresses@),
        ) + ");"@,
{
    if same_texts(last, addresses) {
        return None;
    }
    let mut script = String::from_str("window.clipxSetPeers(");
    let list = js_array(addresses);
    script.append(list.as_str());
    script.append(");");
    Some(script)
}

/// The script that shows why a setup was refused.
pub fn setup_error(message: &str) -> (script: String)
    ensures
        script@ == "window.clipxSetError("@ + js_text(message@) + ");"@,
{
    let mut script = String::from_str("window.clipxSetError(");
    let text = js_string(message);
    script.append(text.as_str());
    script.append(");");
    script
}

/// What the setup page asks for: a role, and an address as it was typed.
pub struct SetupRequest {
    pub role: DesktopRole,
    pub address: String,
}

/// What a message from the setup page asks for, if anything.
pub open spec fn setup_of(body: Seq<char>) -> Option<(DesktopRole, Seq<char>)> {
    if begins_with(body, "save:listen:"@) {
        Some((DesktopRole::Listen, body.skip("save:listen:"@.len() as int)))
    } else if begins_with(body, "save:connect:"@) {
        Some((DesktopRole::Connect, body.skip("save:connect:"@.len() as int)))
    } else {
        None
    }
}

/// Reads a message from the setup page.
pub fn setup_request(body: &str) -> (r: Option<SetupRequest>)
    ensures
        match setup_of(body@) {
            Some((role, address)) => r matches Some(request) && request.role == role
                && request.address@ == address,
            None => r is None,
        },
{
    let chars = chars_of(body);
    proof {
        assert(chars@.skip(0) == chars@);
    }
    let listen = chars_of("save:listen:");
    if begins_at(chars.as_slice(), 0, listen.as_slice()) {
        let address = part(chars.as_slice(), listen.len(), chars.len());
        proof {
            assert(address@ == body@.skip(listen@.len() as int));
        }
        return Some(
            SetupRequest { role: DesktopRole::Listen, address: string_of(address.as_slice()) },
        );
    }
    let connect = chars_of("save:connect:");
    if begins_at(chars.as_slice(), 0, connect.as_slice()) {
        let address = part(chars.as_slice(), connect.len(), chars.len());
        proof {
            assert(address@ == body@.skip(connect@.len() as int));
        }
        return Some(
            SetupRequest { role: DesktopRole::Connect, address: string_of(address.as_slice()) },
        );
    }
    None
}

/// What the panel asks for.
pub enum PanelRequest {
    Disconnect,
    Reconnect,
    /// Change to this role and this address, as it was typed.
    SaveConfig { role: DesktopRole, address: String },
}

/// What the panel asks for, as a value.
pub ghost enum PanelRequestView {
    Disconnect,
    Reconnect,
    SaveConfig { role: DesktopRole, address: Seq<char> },
}

impl View for PanelRequest {
    type V = PanelRequestView;

    open spec fn view(&self) -> PanelRequestView {
        match self {
            PanelRequest::Disconnect => PanelRequestView::Disconnect,
            PanelRequest::Reconnect => PanelRequestView::Reconnect,
            PanelRequest::SaveConfig { role, address } => PanelRequestView::SaveConfig {
                role: *role,
                address: address@,
            },
        }
    }
}

/// What a message from the panel asks for, if anything: an action that the panel
/// offers, or what the setup page can ask for.
pub open spec fn panel_asks(body: Seq<char>) -> Option<PanelRequestView> {
    if body == "disconnect"@ {
        Some(PanelRequestView::Disconnect)
    } else if body == "reconnect"@ {
        Some(PanelRequestView::Reconnect)
    } else {
        match setup_of(body) {
            Some((role, address)) => Some(PanelRequestView::SaveConfig { role, address }),
            None => None,
        }
    }
}

/// Reads a message from the panel.
pub fn panel_request(body: &str) -> (r: Option<PanelRequest>)
    ensures
        match panel_asks(body@) {
            Some(asked) => r matches Some(request) && request@ == asked,
            None => r is None,
        },
{
    if same_text(body, "disconnect") {
        return Some(PanelRequest::Disconnect);
    }
    if same_text(body, "reconnect") {
        return Some(PanelRequest::Reconnect);
    }
    match setup_request(body) {
        Some(request) => Some(
            PanelRequest::SaveConfig { role: request.role, address: request.address },
        ),
        None => None,
    }
}

} // verus!
