//! What the panel shows and asks for.

use vstd::prelude::*;

use crate::config::DesktopRole;
use crate::panel::{
    html_of, js_body, js_items, js_list, js_text, page, panel_asks, setup_of,
    PanelRequestView,
};
use crate::text::replaced;

verus! {

/// A text in a script stands between quotation marks, and of its characters the backslash,
/// the quotation mark, the line feed and the carriage return are escaped, and no others.
pub proof fn law_script_text(value: Seq<char>, c: char)
    ensures
        js_text(value) == seq!['\''] + js_body(value) + seq!['\''],
        js_body(Seq::<char>::empty()).len() == 0,
        c == '\\' || c == '\'' ==> js_body(value.push(c)) == js_body(value) + seq!['\\', c],
        c == '\n' ==> js_body(value.push(c)) == js_body(value) + seq!['\\', 'n'],
        c == '\r' ==> js_body(value.push(c)) == js_body(value) + seq!['\\', 'r'],
        c != '\\' && c != '\'' && c != '\n' && c != '\r' ==> js_body(value.push(c)) == js_body(
            value,
        ).push(c),
{
    assert(value.push(c).drop_last() == value);
    assert(js_body(value) + seq![c] == js_body(value).push(c));
    assert((seq!['\''] + js_body(value)).push('\'') == seq!['\''] + js_body(value) + seq!['\'']);
}

/// A list in a script stands between brackets, with commas between its texts.
pub proof fn law_script_list(values: Seq<Seq<char>>, value: Seq<char>)
    ensures
        js_list(values) == seq!['['] + js_items(values) + seq![']'],
        js_items(Seq::<Seq<char>>::empty()).len() == 0,
        js_items(seq![value]) == js_text(value),
        values.len() > 0 ==> js_items(values.push(value)) == js_items(values) + seq![','] + js_text(
            value,
        ),
{
    assert((seq!['['] + js_items(values)).push(']') == seq!['['] + js_items(values) + seq![']']);
    if values.len() > 0 {
        assert(values.push(value).drop_last() == values);
        assert(js_items(values).push(',') + js_text(value) == js_items(values) + seq![',']
            + js_text(value));
    }
}

/// A text on a page is shown as it is: ampersands and angle brackets are escaped, and no
/// other characters.
pub proof fn law_page_text(value: Seq<char>, c: char)
    ensures
        html_of(Seq::<char>::empty()).len() == 0,
        c == '&' ==> html_of(value.push(c)) == html_of(value) + "&amp;"@,
        c == '<' ==> html_of(value.push(c)) == html_of(value) + "&lt;"@,
        c == '>' ==> html_of(value.push(c)) == html_of(value) + "&gt;"@,
        c != '&' && c != '<' && c != '>' ==> html_of(value.push(c)) == html_of(value).push(c),
{
    assert(value.push(c).drop_last() == value);
    assert(html_of(value) + seq![c] == html_of(value).push(c));
}

/// The page says whether the device listens, and shows its addresses; where there is none
/// nothing is shown.
pub proof fn law_page_is_filled_in(template: Seq<char>, address: Seq<char>, target: Seq<char>)
    ensures
        page(template, Some(address), None) == replaced(
            replaced(
                replaced(template, "__LISTEN_MODE__"@, "true"@),
                "__LISTEN_ADDRESS_DISPLAY__"@,
                html_of(address),
            ),
            "__CONNECT_TARGET_DISPLAY__"@,
            Seq::<char>::empty(),
        ),
        page(template, None, Some(target)) == replaced(
            replaced(
                replaced(template, "__LISTEN_MODE__"@, "false"@),
                "__LISTEN_ADDRESS_DISPLAY__"@,
                Seq::<char>::empty(),
            ),
            "__CONNECT_TARGET_DISPLAY__"@,
            html_of(target),
        ),
        page(template, Some(address), Some(target)) == replaced(
            replaced(
                replaced(template, "__LISTEN_MODE__"@, "true"@),
                "__LISTEN_ADDRESS_DISPLAY__"@,
                html_of(address),
            ),
            "__CONNECT_TARGET_DISPLAY__"@,
            html_of(target),
        ),
        page(template, None, None) == replaced(
            replaced(
                replaced(template, "__LISTEN_MODE__"@, "false"@),
                "__LISTEN_ADDRESS_DISPLAY__"@,
                Seq::<char>::empty(),
            ),
            "__CONNECT_TARGET_DISPLAY__"@,
            Seq::<char>::empty(),
        ),
{
}

/// Whatever the address, a request to save it is understood, with its role and all of the
/// address.
pub proof fn law_settings_can_be_saved(address: Seq<char>)
    ensures
        setup_of("save:listen:"@ + address) == Some((DesktopRole::Listen, address)),
        setup_of("save:connect:"@ + address) == Some((DesktopRole::Connect, address)),
        panel_asks("save:listen:"@ + address) == Some(
            PanelRequestView::SaveConfig { role: DesktopRole::Listen, address },
        ),
        panel_asks("save:connect:"@ + address) == Some(
            PanelRequestView::SaveConfig { role: DesktopRole::Connect, address },
        ),
{
    reveal_strlit("save:listen:");
    reveal_strlit("save:connect:");
    reveal_strlit("disconnect");
    reveal_strlit("reconnect");
    let listen = "save:listen:"@ + address;
    let connect = "save:connect:"@ + address;
    assert(listen.take("save:listen:"@.len() as int) == "save:listen:"@);
    assert(listen.skip("save:listen:"@.len() as int) == address);
    assert(connect.take("save:connect:"@.len() as int) == "save:connect:"@);
    assert(connect.skip("save:connect:"@.len() as int) == address);
    assert(connect.take("save:listen:"@.len() as int)[5] == 'c');
    assert("save:listen:"@[5] == 'l');
    assert(listen[0] == 's' && connect[0] == 's');
    assert("disconnect"@[0] == 'd' && "reconnect"@[0] == 'r');
}

/// A request to disconnect or to reconnect is understood, and every other one is none.
pub proof fn law_requests_are_understood(body: Seq<char>)
    ensures
        panel_asks("disconnect"@) == Some(PanelRequestView::Disconnect),
        panel_asks("reconnect"@) == Some(PanelRequestView::Reconnect),
        body != "disconnect"@ && body != "reconnect"@ && !(exists|address: Seq<char>|
            #[trigger] ("save:listen:"@ + address) == body) && !(exists|address: Seq<char>|
            #[trigger] ("save:connect:"@ + address) == body) ==> panel_asks(body) is None,
        !(exists|address: Seq<char>| #[trigger] ("save:listen:"@ + address) == body) && !(exists|
            address: Seq<char>,
        | #[trigger] ("save:connect:"@ + address) == body) ==> setup_of(body) is None,
{
    reveal_strlit("disconnect");
    reveal_strlit("reconnect");
    assert("disconnect"@[0] == 'd' && "reconnect"@[0] == 'r');
    if setup_of(body) is Some {
        let listen = "save:listen:"@.len() as int;
        let connect = "save:connect:"@.len() as int;
        if crate::text::begins_with(body, "save:listen:"@) {
            assert("save:listen:"@ + body.skip(listen) == body);
        } else {
            assert("save:connect:"@ + body.skip(connect) == body);
        }
    }
}

} // verus!
