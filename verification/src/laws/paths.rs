//! What becomes of the names of files.

use vstd::prelude::*;
use vstd::utf8::{decode_utf8, encode_utf8, is_ascii_chars, valid_utf8};

use crate::capture::lies_in;
use crate::manifest::{entry_path, path_key};
use crate::paths::{
    all_valid, cleaned, collision_key, components, folded, invalid, is_separator, joined,
    lemma_split_plain, lemma_stem_len, lowercase, portable, portable_all, portable_byte, reserved,
    safe_char, split_from, stem_len, without_tail,
};
use crate::wire::EntryView;

verus! {

/// What stands for a byte in a name: an underscore for a control character and for each of
/// `"`, `*`, `/`, `:`, `<`, `>`, `?`, `\` and `|`, every other byte for itself.
pub open spec fn fit_byte(b: u8) -> u8 {
    if b <= 0x1f || b == 0x22 || b == 0x2a || b == 0x2f || b == 0x3a || b == 0x3c || b == 0x3e || b
        == 0x3f || b == 0x5c || b == 0x7c {
        0x5f
    } else {
        b
    }
}

/// Whether a string is a word in capitals, whatever the case of its letters.
pub open spec fn is_word(s: Seq<u8>, word: Seq<u8>) -> bool {
    s.len() == word.len() && forall|i: int|
        0 <= i < word.len() ==> #[trigger] s[i] == word[i] || s[i] == word[i] + 0x20
}

/// Whether a string names a device: `AUX`, `CON`, `NUL`, `PRN`, and `COM` and `LPT` with a
/// digit that is not zero.
pub open spec fn is_device(s: Seq<u8>) -> bool {
    ||| is_word(s, seq![0x41u8, 0x55, 0x58])
    ||| is_word(s, seq![0x43u8, 0x4f, 0x4e])
    ||| is_word(s, seq![0x4eu8, 0x55, 0x4c])
    ||| is_word(s, seq![0x50u8, 0x52, 0x4e])
    ||| s.len() == 4 && 0x31 <= s[3] <= 0x39 && is_word(s.take(3), seq![0x43u8, 0x4f, 0x4d])
    ||| s.len() == 4 && 0x31 <= s[3] <= 0x39 && is_word(s.take(3), seq![0x4cu8, 0x50, 0x54])
}

/// The names of devices are kept free, and no others.
pub proof fn law_device_names(s: Seq<u8>)
    ensures
        reserved(s) <==> is_device(s),
{
    if is_device(s) {
        if s.len() == 3 {
            assert(s[0] == s[0] && s[1] == s[1] && s[2] == s[2]);
        } else {
            let t = s.take(3);
            assert(t[0] == s[0] && t[1] == s[1] && t[2] == s[2]);
        }
    }
    if reserved(s) {
        let t = s.take(3);
        assert(t[0] == s[0] && t[1] == s[1] && t[2] == s[2]);
        let aux = seq![0x41u8, 0x55, 0x58];
        let con = seq![0x43u8, 0x4f, 0x4e];
        let nul = seq![0x4eu8, 0x55, 0x4c];
        let prn = seq![0x50u8, 0x52, 0x4e];
        let com = seq![0x43u8, 0x4f, 0x4d];
        let lpt = seq![0x4cu8, 0x50, 0x54];
        if s.len() == 3 {
            assert(is_word(s, aux) || is_word(s, con) || is_word(s, nul) || is_word(s, prn));
        } else {
            assert(is_word(t, com) || is_word(t, lpt));
        }
    }
}

proof fn lemma_tail(s: Seq<u8>, k: int)
    requires
        0 <= k <= s.len(),
        forall|i: int| k <= i < s.len() ==> #[trigger] s[i] == 0x2e || s[i] == 0x20,
        k > 0 ==> s[k - 1] != 0x2e && s[k - 1] != 0x20,
    ensures
        without_tail(s) == s.take(k),
    decreases s.len(),
{
    if k < s.len() {
        assert(s[s.len() - 1] == 0x2e || s[s.len() - 1] == 0x20);
        lemma_tail(s.drop_last(), k);
        assert(s.drop_last().take(k) == s.take(k));
    } else {
        assert(s.take(k) == s);
    }
}

/// A name is sent byte for byte, but that unfit bytes become underscores, that dots and
/// spaces at its end go, that nothing becomes an underscore, and that an underscore is put
/// behind what stands before the first dot where that names a device.
///
/// `k` is where the dots and spaces at the end begin, and `d` where the first dot stands.
pub proof fn law_name_is_kept(value: Seq<u8>, k: int, name: Seq<u8>, d: int)
    requires
        0 <= k <= value.len(),
        forall|i: int| k <= i < value.len() ==> #[trigger] value[i] == 0x2e || value[i] == 0x20,
        k > 0 ==> value[k - 1] != 0x2e && value[k - 1] != 0x20,
        k == 0 ==> name == seq![0x5fu8],
        k > 0 ==> name.len() == k && forall|i: int|
            0 <= i < k ==> #[trigger] name[i] == fit_byte(value[i]),
        0 <= d <= name.len(),
        forall|i: int| 0 <= i < d ==> #[trigger] name[i] != 0x2e,
        d < name.len() ==> name[d] == 0x2e,
    ensures
        is_device(name.take(d)) ==> portable(value) == name.take(d).push(0x5f) + name.skip(d),
        !is_device(name.take(d)) ==> portable(value) == name,
{
    let mapped = value.map_values(|b: u8| portable_byte(b));
    assert forall|i: int| k <= i < mapped.len() implies #[trigger] mapped[i] == 0x2e || mapped[i]
        == 0x20 by {
        assert(value[i] == 0x2e || value[i] == 0x20);
    }
    lemma_tail(mapped, k);
    if k == 0 {
        assert(without_tail(mapped).len() == 0);
        assert(cleaned(value) == name);
    } else {
        assert forall|i: int| 0 <= i < k implies mapped.take(k)[i] == name[i] by {
            assert(name[i] == fit_byte(value[i]));
        }
        assert(mapped.take(k) == name);
        assert(cleaned(value) == name);
    }
    lemma_stem_len(name);
    let end = stem_len(name) as int;
    if end < d {
        assert(name[end] != 0x2e);
    }
    assert(end == d);
    law_device_names(name.take(d));
}

/// Every component is made fit on its own, and none is added or left out.
pub proof fn law_components_are_made_fit(path: Seq<Seq<u8>>, i: int)
    requires
        0 <= i < path.len(),
    ensures
        portable_all(path).len() == path.len(),
        portable_all(path)[i] == portable(path[i]),
{
}

/// A path comes apart at its slashes and backslashes, and nowhere else.
pub proof fn law_path_comes_apart(before: Seq<u8>, separator: u8, behind: Seq<u8>)
    ensures
        separator == 0x2f || separator == 0x5c ==> components(
            before.push(separator) + behind,
        ) == components(before) + components(behind),
        (forall|i: int| 0 <= i < before.len() ==> #[trigger] before[i] != 0x2f && before[i] != 0x5c)
            ==> components(before) == seq![before],
{
    if separator == 0x2f || separator == 0x5c {
        lemma_split_at(before, separator, behind, seq![]);
    }
    if forall|i: int| 0 <= i < before.len() ==> #[trigger] before[i] != 0x2f && before[i] != 0x5c {
        assert forall|i: int| 0 <= i < before.len() implies !is_separator(#[trigger] before[i]) by {
            assert(before[i] != 0x2f && before[i] != 0x5c);
        }
        lemma_split_plain(before, seq![]);
        assert(Seq::<u8>::empty() + before == before);
    }
}

proof fn lemma_split_at(before: Seq<u8>, separator: u8, behind: Seq<u8>, current: Seq<u8>)
    requires
        separator == 0x2f || separator == 0x5c,
    ensures
        split_from(before.push(separator) + behind, current) == split_from(before, current)
            + components(behind),
    decreases before.len(),
{
    let whole = before.push(separator) + behind;
    if before.len() == 0 {
        assert(whole.skip(1) == behind);
        assert(whole[0] == separator);
    } else {
        assert(whole[0] == before[0]);
        assert(whole.skip(1) == before.skip(1).push(separator) + behind);
        if is_separator(before[0]) {
            lemma_split_at(before.skip(1), separator, behind, seq![]);
            assert(seq![current] + (split_from(before.skip(1), seq![]) + components(behind)) == (seq![
                current,
            ] + split_from(before.skip(1), seq![])) + components(behind));
        } else {
            lemma_split_at(before.skip(1), separator, behind, current.push(before[0]));
        }
    }
}

/// A path is put together with slashes.
pub proof fn law_path_is_put_together(path: Seq<Seq<u8>>, name: Seq<u8>)
    ensures
        joined(seq![name]) == name,
        path.len() > 0 ==> joined(path.push(name)) == joined(path) + seq![0x2fu8] + name,
{
    if path.len() > 0 {
        assert(path.push(name).drop_last() == path);
        assert(joined(path).push(0x2f) + name == joined(path) + seq![0x2fu8] + name);
    }
}

/// A component is refused if it is empty, `.` or `..`, and for no other reason; a path is,
/// if one of its components is.
pub proof fn law_components_that_are_refused(path: Seq<Seq<u8>>)
    ensures
        all_valid(path) <==> forall|i: int|
            0 <= i < path.len() ==> (#[trigger] path[i]).len() > 0 && path[i] != seq![0x2eu8]
                && path[i] != seq![0x2eu8, 0x2eu8],
{
    if all_valid(path) {
        assert forall|i: int| 0 <= i < path.len() implies (#[trigger] path[i]).len() > 0 && path[i]
            != seq![0x2eu8] && path[i] != seq![0x2eu8, 0x2eu8] by {
            assert(!invalid(path[i]));
        }
    } else {
        let i = choose|i: int| 0 <= i < path.len() && invalid(#[trigger] path[i]);
        assert(path[i].len() == 0 || path[i] == seq![0x2eu8] || path[i] == seq![0x2eu8, 0x2eu8]);
    }
}

/// Two ASCII paths, or two that are not UTF-8, collide if and only if they have the same
/// length and differ at most in the case of ASCII letters and in slashes for backslashes.
pub proof fn law_paths_that_collide(a: Seq<u8>, b: Seq<u8>)
    requires
        valid_utf8(a) ==> is_ascii_chars(decode_utf8(a)),
        valid_utf8(b) ==> is_ascii_chars(decode_utf8(b)),
    ensures
        collision_key(a) == collision_key(b) <==> a.len() == b.len() && forall|i: int|
            0 <= i < a.len() ==> {
                ||| #[trigger] a[i] == b[i]
                ||| a[i] == 0x2f && b[i] == 0x5c
                ||| a[i] == 0x5c && b[i] == 0x2f
                ||| 0x41 <= a[i] <= 0x5a && b[i] == a[i] + 0x20
                ||| 0x41 <= b[i] <= 0x5a && a[i] == b[i] + 0x20
            },
{
    crate::paths::law_collision_key_is_settled(a);
    crate::paths::law_collision_key_is_settled(b);
    let x = a.map_values(|c: u8| folded(c));
    let y = b.map_values(|c: u8| folded(c));
    if x == y {
        assert(x.len() == y.len());
        assert forall|i: int| 0 <= i < a.len() implies {
            ||| #[trigger] a[i] == b[i]
            ||| a[i] == 0x2f && b[i] == 0x5c
            ||| a[i] == 0x5c && b[i] == 0x2f
            ||| 0x41 <= a[i] <= 0x5a && b[i] == a[i] + 0x20
            ||| 0x41 <= b[i] <= 0x5a && a[i] == b[i] + 0x20
        } by {
            assert(x[i] == y[i]);
        }
    } else if a.len() == b.len() && forall|i: int|
        0 <= i < a.len() ==> {
            ||| #[trigger] a[i] == b[i]
            ||| a[i] == 0x2f && b[i] == 0x5c
            ||| a[i] == 0x5c && b[i] == 0x2f
            ||| 0x41 <= a[i] <= 0x5a && b[i] == a[i] + 0x20
            ||| 0x41 <= b[i] <= 0x5a && a[i] == b[i] + 0x20
        } {
        assert forall|i: int| 0 <= i < a.len() implies x[i] == y[i] by {
            assert(a[i] == a[i]);
        }
        assert(x == y);
    }
}

/// Other UTF-8 paths collide if they are the same in lower case.
pub proof fn law_texts_that_collide(text: Seq<char>, lowered: Seq<char>)
    requires
        lowered.len() == text.len(),
        forall|i: int|
            0 <= i < text.len() ==> #[trigger] lowered[i] == if text[i] == '\\' {
                '/'
            } else if 'A' <= text[i] <= 'Z' {
                (text[i] as u32 + 0x20) as char
            } else {
                text[i]
            },
        !is_ascii_chars(lowered),
    ensures
        collision_key(encode_utf8(text)) == encode_utf8(lowercase(lowered)),
{
    vstd::utf8::encode_utf8_valid_utf8(text);
    vstd::utf8::encode_utf8_decode_utf8(text);
    let own = crate::paths::ascii_lowered(crate::paths::slashed(text));
    assert forall|i: int| 0 <= i < own.len() implies own[i] == lowered[i] by {
        assert(lowered[i] == lowered[i]);
    }
    assert(own == lowered);
}

/// An entry stands under the fit components of its path, and collides by them.
pub proof fn law_entry_stands_under_its_path(entry: EntryView, path: Seq<Seq<u8>>)
    ensures
        entry_path(entry) == portable_all(components(entry.path)),
        path_key(path) == collision_key(joined(portable_all(path))),
{
}

/// Letters, digits, hyphens and underscores are safe; everything else is an underscore.
pub proof fn law_safe_characters(c: char)
    ensures
        'a' <= c <= 'z' || 'A' <= c <= 'Z' || '0' <= c <= '9' || c == '-' || c == '_'
            ==> safe_char(c) == c,
        !('a' <= c <= 'z' || 'A' <= c <= 'Z' || '0' <= c <= '9' || c == '-' || c == '_')
            ==> safe_char(c) == '_',
{
}

/// A path lies in a directory if it goes through it, component by component.
pub proof fn law_path_lies_in_directory(path: Seq<Seq<u8>>, directory: Seq<Seq<u8>>)
    ensures
        lies_in(path, directory) <==> directory.len() <= path.len() && forall|i: int|
            0 <= i < directory.len() ==> #[trigger] path[i] == directory[i],
{
    if lies_in(path, directory) {
        assert forall|i: int| 0 <= i < directory.len() implies #[trigger] path[i]
            == directory[i] by {
            assert(path.subrange(0, directory.len() as int)[i] == directory[i]);
        }
    } else if directory.len() <= path.len() {
        if forall|i: int| 0 <= i < directory.len() ==> #[trigger] path[i] == directory[i] {
            assert(path.subrange(0, directory.len() as int) == directory);
        }
    }
}

} // verus!
