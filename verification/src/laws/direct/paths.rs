//! What becomes of the names of files between devices that are connected directly.

use vstd::prelude::*;

use crate::direct::paths::{
    all_valid, cleaned, components, invalid, joined, lossy_all, names_device, portable,
    portable_all, portable_char, spells, split_from, without_tail,
};
use crate::paths::lossy;

verus! {

/// What stands for a character in a name: an underscore for a control character and for each
/// of `"`, `*`, `/`, `:`, `<`, `>`, `?`, `\` and `|`, every other character for itself.
pub open spec fn fit_char(c: char) -> char {
    if c <= '\u{1f}' || '\u{7f}' <= c <= '\u{9f}' || c == '"' || c == '*' || c == '/' || c == ':'
        || c == '<' || c == '>' || c == '?' || c == '\\' || c == '|' {
        '_'
    } else {
        c
    }
}

/// Whether a text is a word in capitals, whatever the case of its letters.
pub open spec fn is_word(s: Seq<char>, word: Seq<char>) -> bool {
    s.len() == word.len() && forall|i: int|
        0 <= i < word.len() ==> #[trigger] s[i] == word[i] || s[i] as u32 == word[i] as u32 + 0x20
}

/// Whether a text names a device: `AUX`, `CON`, `NUL`, `PRN`, and `COM` and `LPT` with a
/// digit that is not zero.
pub open spec fn is_device(s: Seq<char>) -> bool {
    ||| is_word(s, seq!['A', 'U', 'X'])
    ||| is_word(s, seq!['C', 'O', 'N'])
    ||| is_word(s, seq!['N', 'U', 'L'])
    ||| is_word(s, seq!['P', 'R', 'N'])
    ||| s.len() == 4 && '1' <= s[3] <= '9' && is_word(s.take(3), seq!['C', 'O', 'M'])
    ||| s.len() == 4 && '1' <= s[3] <= '9' && is_word(s.take(3), seq!['L', 'P', 'T'])
}

proof fn lemma_letter(c: char, upper: char)
    requires
        'A' <= upper <= 'Z',
    ensures
        spells(c, upper) <==> c == upper || c as u32 == upper as u32 + 0x20,
{
}

proof fn lemma_word(s: Seq<char>, a: char, b: char, c: char)
    requires
        'A' <= a <= 'Z',
        'A' <= b <= 'Z',
        'A' <= c <= 'Z',
    ensures
        is_word(s, seq![a, b, c]) <==> s.len() == 3 && spells(s[0], a) && spells(s[1], b)
            && spells(s[2], c),
{
    let word = seq![a, b, c];
    lemma_letter(s[0], a);
    lemma_letter(s[1], b);
    lemma_letter(s[2], c);
    if is_word(s, word) {
        assert(s[0] == word[0] || s[0] as u32 == word[0] as u32 + 0x20);
        assert(s[1] == word[1] || s[1] as u32 == word[1] as u32 + 0x20);
        assert(s[2] == word[2] || s[2] as u32 == word[2] as u32 + 0x20);
    }
}

/// The names of devices are kept free, and no others.
pub proof fn law_device_names(s: Seq<char>)
    ensures
        names_device(s) <==> is_device(s),
{
    lemma_word(s, 'A', 'U', 'X');
    lemma_word(s, 'C', 'O', 'N');
    lemma_word(s, 'N', 'U', 'L');
    lemma_word(s, 'P', 'R', 'N');
    if s.len() == 4 {
        lemma_word(s.take(3), 'C', 'O', 'M');
        lemma_word(s.take(3), 'L', 'P', 'T');
    }
}

proof fn lemma_tail(s: Seq<char>, k: int)
    requires
        0 <= k <= s.len(),
        forall|i: int| k <= i < s.len() ==> #[trigger] s[i] == '.' || s[i] == ' ',
        k > 0 ==> s[k - 1] != '.' && s[k - 1] != ' ',
    ensures
        without_tail(s) == s.take(k),
    decreases s.len(),
{
    if k < s.len() {
        assert(s[s.len() - 1] == '.' || s[s.len() - 1] == ' ');
        lemma_tail(s.drop_last(), k);
        assert(s.drop_last().take(k) == s.take(k));
    } else {
        assert(s.take(k) == s);
    }
}

/// A name is sent character for character, but that unfit characters become underscores,
/// that dots and spaces at its end go, that nothing becomes an underscore, and that an
/// underscore is put behind a name of a device.
///
/// `k` is where the dots and spaces at the end begin.
pub proof fn law_name_is_kept(value: Seq<char>, k: int, name: Seq<char>)
    requires
        0 <= k <= value.len(),
        forall|i: int| k <= i < value.len() ==> #[trigger] value[i] == '.' || value[i] == ' ',
        k > 0 ==> value[k - 1] != '.' && value[k - 1] != ' ',
        k == 0 ==> name == seq!['_'],
        k > 0 ==> name.len() == k && forall|i: int|
            0 <= i < k ==> #[trigger] name[i] == fit_char(value[i]),
    ensures
        is_device(name) ==> portable(value) == name.push('_'),
        !is_device(name) ==> portable(value) == name,
{
    let mapped = value.map_values(|c: char| portable_char(c));
    assert forall|i: int| k <= i < mapped.len() implies #[trigger] mapped[i] == '.' || mapped[i]
        == ' ' by {
        assert(value[i] == '.' || value[i] == ' ');
    }
    lemma_tail(mapped, k);
    if k == 0 {
        assert(without_tail(mapped).len() == 0);
        assert(cleaned(value) == name);
    } else {
        assert forall|i: int| 0 <= i < k implies mapped.take(k)[i] == name[i] by {
            assert(name[i] == fit_char(value[i]));
        }
        assert(mapped.take(k) == name);
        assert(cleaned(value) == name);
    }
    law_device_names(name);
}

/// Every component is made fit on its own, and none is added or left out.
pub proof fn law_components_are_made_fit(path: Seq<Seq<char>>, raw: Seq<Seq<u8>>, i: int)
    ensures
        portable_all(path).len() == path.len(),
        0 <= i < path.len() ==> portable_all(path)[i] == portable(path[i]),
        lossy_all(raw).len() == raw.len(),
        0 <= i < raw.len() ==> lossy_all(raw)[i] == lossy(raw[i]),
{
}

/// A path comes apart at its slashes and backslashes, and nowhere else.
pub proof fn law_path_comes_apart(before: Seq<char>, separator: char, behind: Seq<char>)
    ensures
        separator == '/' || separator == '\\' ==> components(before.push(separator) + behind)
            == components(before) + components(behind),
        (forall|i: int| 0 <= i < before.len() ==> #[trigger] before[i] != '/' && before[i] != '\\')
            ==> components(before) == seq![before],
{
    if separator == '/' || separator == '\\' {
        lemma_split_at(before, separator, behind, seq![]);
    }
    if forall|i: int| 0 <= i < before.len() ==> #[trigger] before[i] != '/' && before[i] != '\\' {
        lemma_split_plain(before, seq![]);
        assert(Seq::<char>::empty() + before == before);
    }
}

proof fn lemma_split_plain(path: Seq<char>, current: Seq<char>)
    requires
        forall|i: int| 0 <= i < path.len() ==> #[trigger] path[i] != '/' && path[i] != '\\',
    ensures
        split_from(path, current) == seq![current + path],
    decreases path.len(),
{
    if path.len() == 0 {
        assert(current + path == current);
    } else {
        assert(path[0] != '/' && path[0] != '\\');
        assert forall|i: int| 0 <= i < path.skip(1).len() implies #[trigger] path.skip(1)[i] != '/'
            && path.skip(1)[i] != '\\' by {
            assert(path[i + 1] != '/' && path[i + 1] != '\\');
        }
        lemma_split_plain(path.skip(1), current.push(path[0]));
        assert(current.push(path[0]) + path.skip(1) == current + path);
    }
}

proof fn lemma_split_at(before: Seq<char>, separator: char, behind: Seq<char>, current: Seq<char>)
    requires
        separator == '/' || separator == '\\',
    ensures
        split_from(before.push(separator) + behind, current) == split_from(before, current)
            + components(behind),
    decreases before.len(),
{
    let whole = before.push(separator) + behind;
    if before.len() == 0 {
        assert(whole.skip(1) == behind);
        assert(whole[0] == separator);
    } else {
        assert(whole[0] == before[0]);
        assert(whole.skip(1) == before.skip(1).push(separator) + behind);
        if before[0] == '/' || before[0] == '\\' {
            lemma_split_at(before.skip(1), separator, behind, seq![]);
            assert(seq![current] + (split_from(before.skip(1), seq![]) + components(behind)) == (seq![
                current,
            ] + split_from(before.skip(1), seq![])) + components(behind));
        } else {
            lemma_split_at(before.skip(1), separator, behind, current.push(before[0]));
        }
    }
}

/// A path is put together with slashes.
pub proof fn law_path_is_put_together(path: Seq<Seq<char>>, name: Seq<char>)
    ensures
        joined(seq![name]) == name,
        path.len() > 0 ==> joined(path.push(name)) == joined(path) + seq!['/'] + name,
{
    if path.len() > 0 {
        assert(path.push(name).drop_last() == path);
        assert(joined(path).push('/') + name == joined(path) + seq!['/'] + name);
    }
}

/// A component is refused if it is empty, `.` or `..`, and for no other reason; a path is,
/// if one of its components is.
pub proof fn law_components_that_are_refused(path: Seq<Seq<char>>)
    ensures
        all_valid(path) <==> forall|i: int|
            0 <= i < path.len() ==> (#[trigger] path[i]).len() > 0 && path[i] != seq!['.']
                && path[i] != seq!['.', '.'],
{
    if all_valid(path) {
        assert forall|i: int| 0 <= i < path.len() implies (#[trigger] path[i]).len() > 0 && path[i]
            != seq!['.'] && path[i] != seq!['.', '.'] by {
            assert(!invalid(path[i]));
        }
    } else {
        let i = choose|i: int| 0 <= i < path.len() && invalid(#[trigger] path[i]);
        assert(path[i].len() == 0 || path[i] == seq!['.'] || path[i] == seq!['.', '.']);
    }
}

} // verus!
