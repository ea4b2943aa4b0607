//! Paths as texts, and their portable form.

use vstd::prelude::*;
use vstd::string::StringExecFns;

use crate::paths::{lossy, lossy_text, PathError, RelativePath};
use crate::text::{chars_of, string_of};

verus! {

/// Whether a character is a control character.
pub open spec fn is_control(c: char) -> bool {
    (c as u32) < 0x20 || 0x7f <= (c as u32) <= 0x9f
}

/// A character that no portable file name may hold is replaced by an underscore.
pub open spec fn portable_char(c: char) -> char {
    if is_control(c) || c == '<' || c == '>' || c == ':' || c == '"' || c == '/' || c == '\\' || c
        == '|' || c == '?' || c == '*' {
        '_'
    } else {
        c
    }
}

/// A name without the dots and spaces at its end.
pub open spec fn without_tail(s: Seq<char>) -> Seq<char>
    decreases s.len(),
{
    if s.len() > 0 && (s.last() == '.' || s.last() == ' ') {
        without_tail(s.drop_last())
    } else {
        s
    }
}

/// Whether two characters are the same but for ASCII case, the second being in
/// upper case.
pub open spec fn spells(c: char, upper: char) -> bool {
    c == upper || ('a' <= c <= 'z' && c as u32 - 0x20 == upper as u32)
}

/// The names of devices, which no file may have: CON, PRN, AUX, NUL, COM1 to COM9
/// and LPT1 to LPT9, in any case.
pub open spec fn names_device(s: Seq<char>) -> bool {
    ||| s.len() == 3 && {
        ||| spells(s[0], 'C') && spells(s[1], 'O') && spells(s[2], 'N')
        ||| spells(s[0], 'P') && spells(s[1], 'R') && spells(s[2], 'N')
        ||| spells(s[0], 'A') && spells(s[1], 'U') && spells(s[2], 'X')
        ||| spells(s[0], 'N') && spells(s[1], 'U') && spells(s[2], 'L')
    }
    ||| s.len() == 4 && '1' <= s[3] <= '9' && {
        ||| spells(s[0], 'C') && spells(s[1], 'O') && spells(s[2], 'M')
        ||| spells(s[0], 'L') && spells(s[1], 'P') && spells(s[2], 'T')
    }
}

/// The name with its bad characters replaced and its tail removed; an underscore
/// where nothing is left.
pub open spec fn cleaned(value: Seq<char>) -> Seq<char> {
    let kept = without_tail(value.map_values(|c: char| portable_char(c)));
    if kept.len() == 0 {
        seq!['_']
    } else {
        kept
    }
}

/// The portable form of one path component: cleaned, and with an underscore at its
/// end where it names a device.
pub open spec fn portable(value: Seq<char>) -> Seq<char> {
    if names_device(cleaned(value)) {
        cleaned(value).push('_')
    } else {
        cleaned(value)
    }
}

fn portable_char_of(c: char) -> (r: char)
    ensures
        r == portable_char(c),
{
    let u: u32 = c as u32;
    if u < 0x20 || (0x7f <= u && u <= 0x9f) || c == '<' || c == '>' || c == ':' || c == '"' || c
        == '/' || c == '\\' || c == '|' || c == '?' || c == '*' {
        '_'
    } else {
        c
    }
}

fn does_spell(c: char, upper: char) -> (r: bool)
    ensures
        r == spells(c, upper),
{
    c == upper || ('a' <= c && c <= 'z' && c as u32 - 0x20 == upper as u32)
}

fn is_device(s: &[char]) -> (r: bool)
    ensures
        r == names_device(s@),
{
    if s.len() == 3 {
        (does_spell(s[0], 'C') && does_spell(s[1], 'O') && does_spell(s[2], 'N')) || (does_spell(
            s[0],
            'P',
        ) && does_spell(s[1], 'R') && does_spell(s[2], 'N')) || (does_spell(s[0], 'A')
            && does_spell(s[1], 'U') && does_spell(s[2], 'X')) || (does_spell(s[0], 'N')
            && does_spell(s[1], 'U') && does_spell(s[2], 'L'))
    } else if s.len() == 4 {
        '1' <= s[3] && s[3] <= '9' && ((does_spell(s[0], 'C') && does_spell(s[1], 'O')
            && does_spell(s[2], 'M')) || (does_spell(s[0], 'L') && does_spell(s[1], 'P')
            && does_spell(s[2], 'T')))
    } else {
        false
    }
}

/// The portable form of one path component.
pub fn portable_component(value: &str) -> (r: String)
    ensures
        r@ == portable(value@),
{
    let chars = chars_of(value);
    let ghost mapped = value@.map_values(|c: char| portable_char(c));
    let mut result: Vec<char> = Vec::new();
    let mut i: usize = 0;
    while i < chars.len()
        invariant
            i <= chars@.len(),
            chars@ == value@,
            mapped == value@.map_values(|c: char| portable_char(c)),
            result@ == mapped.take(i as int),
        decreases chars@.len() - i,
    {
        proof {
            assert(mapped.take(i as int + 1) == mapped.take(i as int).push(mapped[i as int]));
        }
        result.push(portable_char_of(chars[i]));
        i += 1;
    }
    proof {
        assert(mapped.take(mapped.len() as int) == mapped);
    }
    while result.len() > 0 && (result[result.len() - 1] == '.' || result[result.len() - 1] == ' ')
        invariant
            without_tail(mapped) == without_tail(result@),
        decreases result@.len(),
    {
        let ghost before = result@;
        result.pop();
        proof {
            assert(before.drop_last() == result@);
        }
    }
    if result.len() == 0 {
        result.push('_');
        proof {
            assert(result@ == seq!['_']);
        }
    }
    if is_device(result.as_slice()) {
        result.push('_');
    }
    string_of(result.as_slice())
}

/// What stands between the slashes, of both kinds, of a path whose current
/// component has begun.
pub open spec fn split_from(path: Seq<char>, current: Seq<char>) -> Seq<Seq<char>>
    decreases path.len(),
{
    if path.len() == 0 {
        seq![current]
    } else if path[0] == '/' || path[0] == '\\' {
        seq![current] + split_from(path.skip(1), seq![])
    } else {
        split_from(path.skip(1), current.push(path[0]))
    }
}

/// The components of a path.
pub open spec fn components(path: Seq<char>) -> Seq<Seq<char>> {
    split_from(path, seq![])
}

/// A component that may lead out of the directory, or nowhere.
pub open spec fn invalid(component: Seq<char>) -> bool {
    component.len() == 0 || component == seq!['.'] || component == seq!['.', '.']
}

/// Whether no component is empty, `.` or `..`.
pub open spec fn all_valid(components: Seq<Seq<char>>) -> bool {
    forall|i: int| 0 <= i < components.len() ==> !invalid(#[trigger] components[i])
}

/// The portable forms of a list of components.
pub open spec fn portable_all(components: Seq<Seq<char>>) -> Seq<Seq<char>> {
    components.map_values(|c: Seq<char>| portable(c))
}

/// Components joined by slashes.
pub open spec fn joined(components: Seq<Seq<char>>) -> Seq<char>
    decreases components.len(),
{
    if components.len() == 0 {
        seq![]
    } else if components.len() == 1 {
        components[0]
    } else {
        joined(components.drop_last()).push('/') + components.last()
    }
}

/// A relative path as the list of its components.
pub struct TextPath {
    pub components: Vec<String>,
}

/// The views of a list of texts.
pub open spec fn string_views(values: Seq<String>) -> Seq<Seq<char>> {
    values.map_values(|s: String| s@)
}

impl View for TextPath {
    type V = Seq<Seq<char>>;

    open spec fn view(&self) -> Seq<Seq<char>> {
        string_views(self.components@)
    }
}

impl TextPath {
    /// A copy of the path.
    pub fn copy(&self) -> (r: TextPath)
        ensures
            r@ == self@,
    {
        let mut components: Vec<String> = Vec::new();
        let mut i: usize = 0;
        while i < self.components.len()
            invariant
                i <= self.components@.len(),
                string_views(components@) == self@.take(i as int),
            decreases self.components@.len() - i,
        {
            let ghost before = components@;
            let text = self.components[i].clone();
            components.push(text);
            proof {
                assert(self@[i as int] == self.components@[i as int]@);
                assert(string_views(components@) == string_views(before).push(text@));
                assert(self@.take(i as int + 1) == self@.take(i as int).push(self@[i as int]));
            }
            i += 1;
        }
        proof {
            assert(self@.take(self@.len() as int) == self@);
        }
        TextPath { components }
    }

    /// The components joined by slashes.
    pub fn text(&self) -> (r: String)
        ensures
            r@ == joined(self@),
    {
        let ghost all = self@;
        let mut r = String::new();
        let mut i: usize = 0;
        proof {
            assert(r@ == joined(all.take(0)));
        }
        while i < self.components.len()
            invariant
                i <= self.components@.len(),
                all == self@,
                r@ == joined(all.take(i as int)),
            decreases self.components@.len() - i,
        {
            let ghost before = r@;
            proof {
                assert(all[i as int] == self.components@[i as int]@);
                assert(all.take(i as int + 1).drop_last() == all.take(i as int));
            }
            if i > 0 {
                r.push('/');
            }
            r.append(self.components[i].as_str());
            proof {
                assert(r@ == joined(all.take(i as int + 1)));
            }
            i += 1;
        }
        proof {
            assert(all.take(all.len() as int) == all);
        }
        r
    }
}

/// Whether a component is empty, `.` or `..`.
pub fn is_invalid(component: &[char]) -> (r: bool)
    ensures
        r == invalid(component@),
{
    if component.len() == 0 {
        return true;
    }
    if component.len() == 1 {
        proof {
            if component@[0] == '.' {
                assert(component@ == seq!['.']);
            }
        }
        return component[0] == '.';
    }
    if component.len() == 2 {
        proof {
            if component@[0] == '.' && component@[1] == '.' {
                assert(component@ == seq!['.', '.']);
            }
        }
        return component[0] == '.' && component[1] == '.';
    }
    false
}

/// Moves a finished component, in its portable form, to the end of a path; one that
/// is empty, `.` or `..` is refused.
fn push_component(component: &mut Vec<char>, result: &mut TextPath) -> (r: Result<(), PathError>)
    ensures
        r is Err <==> invalid(old(component)@),
        r matches Err(error) ==> error == PathError::InvalidComponent,
        r is Ok ==> final(component)@ == Seq::<char>::empty() && final(result)@ == old(
            result)@.push(portable(old(component)@)),
{
    if is_invalid(component.as_slice()) {
        return Err(PathError::InvalidComponent);
    }
    let ghost before = result@;
    let text = string_of(component.as_slice());
    let name = portable_component(text.as_str());
    result.components.push(name);
    component.clear();
    proof {
        assert(result@ == before.push(name@));
    }
    Ok(())
}

/// Reads a path from the wire. It is refused if and only if a component is empty,
/// `.` or `..`; else every component takes its portable form.
pub fn safe_relative_path(path: &str) -> (r: Result<TextPath, PathError>)
    ensures
        r is Ok <==> all_valid(components(path@)),
        r matches Ok(relative) ==> relative@ == portable_all(components(path@)),
        r matches Err(error) ==> error == PathError::InvalidComponent,
{
    let chars = chars_of(path);
    let mut result = TextPath { components: Vec::new() };
    let mut component: Vec<char> = Vec::new();
    let mut i: usize = 0;
    let ghost mut done: Seq<Seq<char>> = seq![];
    proof {
        assert(path@.skip(0) == path@);
        assert(done + components(path@) == components(path@));
        assert(result@ == portable_all(done));
    }
    while i < chars.len()
        invariant
            chars@ == path@,
            i <= path@.len(),
            components(path@) == done + split_from(path@.skip(i as int), component@),
            all_valid(done),
            result@ == portable_all(done),
        decreases path@.len() - i,
    {
        let c = chars[i];
        let ghost rest = path@.skip(i as int);
        proof {
            assert(rest.skip(1) == path@.skip(i as int + 1));
            assert(rest[0] == c);
        }
        if c == '/' || c == '\\' {
            let ghost part = component@;
            if let Err(error) = push_component(&mut component, &mut result) {
                proof {
                    assert(components(path@)[done.len() as int] == part);
                }
                return Err(error);
            }
            proof {
                assert(component@ == Seq::<char>::empty());
                assert(done + (seq![part] + split_from(rest.skip(1), seq![])) == done.push(part)
                    + split_from(rest.skip(1), seq![]));
                assert(portable_all(done.push(part)) == portable_all(done).push(portable(part)));
                done = done.push(part);
            }
        } else {
            component.push(c);
        }
        i += 1;
    }
    let ghost part = component@;
    proof {
        assert(components(path@) == done.push(part));
        assert(portable_all(done.push(part)) == portable_all(done).push(portable(part)));
    }
    if let Err(error) = push_component(&mut component, &mut result) {
        proof {
            assert(components(path@)[done.len() as int] == part);
        }
        return Err(error);
    }
    Ok(result)
}

/// The components of a path as texts.
pub open spec fn lossy_all(components: Seq<Seq<u8>>) -> Seq<Seq<char>> {
    components.map_values(|c: Seq<u8>| lossy(c))
}

/// Writes a path for the wire: its components as texts in their portable form,
/// joined by slashes. A path without components is refused, and so is one with a
/// component that is empty, `.` or `..`.
pub fn portable_relative_path(path: &RelativePath) -> (r: Result<TextPath, PathError>)
    ensures
        r is Ok <==> path@.len() > 0 && all_valid(lossy_all(path@)),
        r matches Ok(wire) ==> wire@ == portable_all(lossy_all(path@)),
        r == Err::<TextPath, PathError>(PathError::InvalidComponent) <==> !all_valid(
            lossy_all(path@),
        ),
        r == Err::<TextPath, PathError>(PathError::Empty) <==> path@.len() == 0,
{
    let ghost all = lossy_all(path@);
    let mut wire = TextPath { components: Vec::new() };
    let mut i: usize = 0;
    proof {
        assert(wire@ == portable_all(all).take(0));
    }
    while i < path.components.len()
        invariant
            i <= path.components@.len(),
            all == lossy_all(path@),
            all.len() == path.components@.len(),
            forall|k: int| 0 <= k < i ==> !invalid(#[trigger] all[k]),
            wire@ == portable_all(all).take(i as int),
        decreases path.components@.len() - i,
    {
        let text = lossy_text(path.components[i].as_slice());
        let chars = chars_of(text.as_str());
        proof {
            assert(path@[i as int] == path.components@[i as int]@);
            assert(all[i as int] == text@);
        }
        if is_invalid(chars.as_slice()) {
            proof {
                assert(invalid(all[i as int]));
            }
            return Err(PathError::InvalidComponent);
        }
        let ghost before = wire@;
        let name = portable_component(text.as_str());
        wire.components.push(name);
        proof {
            assert(wire@ == before.push(name@));
            assert(portable_all(all).take(i as int + 1) == portable_all(all).take(i as int).push(
                portable_all(all)[i as int],
            ));
        }
        i += 1;
    }
    if path.components.len() == 0 {
        return Err(PathError::Empty);
    }
    proof {
        assert(portable_all(all).take(all.len() as int) == portable_all(all));
    }
    Ok(wire)
}

/// A component that stays in its directory on every system: not empty, `.` or `..`,
/// free of the characters that a portable name may not hold, without a dot or a
/// space at its end, and naming no device.
pub open spec fn safe(component: Seq<char>) -> bool {
    &&& !invalid(component)
    &&& forall|i: int|
        0 <= i < component.len() ==> portable_char(#[trigger] component[i]) == component[i]
    &&& component.last() != '.'
    &&& component.last() != ' '
    &&& !names_device(component)
}

proof fn lemma_without_tail(s: Seq<char>)
    ensures
        without_tail(s).len() <= s.len(),
        without_tail(s) == s.take(without_tail(s).len() as int),
        without_tail(s).len() > 0 ==> without_tail(s).last() != '.' && without_tail(s).last() != ' ',
    decreases s.len(),
{
    if s.len() > 0 && (s.last() == '.' || s.last() == ' ') {
        lemma_without_tail(s.drop_last());
        assert(s.drop_last().take(without_tail(s).len() as int) == s.take(
            without_tail(s).len() as int,
        ));
    } else {
        assert(s.take(s.len() as int) == s);
    }
}

/// The portable form of any component at all is safe.
pub proof fn law_portable_is_safe(value: Seq<char>)
    ensures
        safe(portable(value)),
{
    let mapped = value.map_values(|c: char| portable_char(c));
    lemma_without_tail(mapped);
    let name = cleaned(value);
    assert forall|i: int| 0 <= i < name.len() implies portable_char(#[trigger] name[i])
        == name[i] by {
        if without_tail(mapped).len() > 0 {
            assert(without_tail(mapped)[i] == mapped[i]);
        }
    }
    let result = portable(value);
    assert(name.len() > 0);
    if names_device(name) {
        assert(result.last() == '_');
        assert forall|i: int| 0 <= i < result.len() implies portable_char(#[trigger] result[i])
            == result[i] by {
            if i < name.len() {
                assert(result[i] == name[i]);
            }
        }
        if result.len() == 4 {
            assert(result[3] == '_');
        }
    }
    assert(result.last() != '.');
    if invalid(result) {
        assert(result.last() == '.');
    }
}

/// Taking the portable form twice changes nothing more.
pub proof fn law_portable_is_idempotent(value: Seq<char>)
    ensures
        portable(portable(value)) == portable(value),
{
    law_portable_is_safe(value);
    let name = portable(value);
    assert(name.map_values(|c: char| portable_char(c)) == name);
    assert(without_tail(name) == name);
    assert(cleaned(name) == name);
}

proof fn lemma_split_plain(path: Seq<char>, current: Seq<char>)
    requires
        forall|i: int| 0 <= i < path.len() ==> #[trigger] path[i] != '/' && path[i] != '\\',
    ensures
        split_from(path, current) == seq![current + path],
    decreases path.len(),
{
    if path.len() == 0 {
        assert(current + path == current);
    } else {
        assert forall|i: int| 0 <= i < path.skip(1).len() implies #[trigger] path.skip(1)[i] != '/'
            && path.skip(1)[i] != '\\' by {
            assert(path.skip(1)[i] == path[i + 1]);
        }
        lemma_split_plain(path.skip(1), current.push(path[0]));
        assert(current.push(path[0]) + path.skip(1) == current + path);
    }
}

proof fn lemma_split_slash(before: Seq<char>, behind: Seq<char>, current: Seq<char>)
    ensures
        split_from(before.push('/') + behind, current) == split_from(before, current) + components(
            behind,
        ),
    decreases before.len(),
{
    let whole = before.push('/') + behind;
    if before.len() == 0 {
        assert(whole.skip(1) == behind);
        assert(whole[0] == '/');
    } else {
        assert(whole[0] == before[0]);
        assert(whole.skip(1) == before.skip(1).push('/') + behind);
        if before[0] == '/' || before[0] == '\\' {
            lemma_split_slash(before.skip(1), behind, seq![]);
            assert(seq![current] + (split_from(before.skip(1), seq![]) + components(behind)) == (seq![
                current,
            ] + split_from(before.skip(1), seq![])) + components(behind));
        } else {
            lemma_split_slash(before.skip(1), behind, current.push(before[0]));
        }
    }
}

proof fn lemma_split_joined(parts: Seq<Seq<char>>)
    requires
        parts.len() > 0,
        forall|i: int| 0 <= i < parts.len() ==> safe(#[trigger] parts[i]),
    ensures
        components(joined(parts)) == parts,
    decreases parts.len(),
{
    let last = parts.last();
    assert(safe(parts[parts.len() - 1]));
    assert forall|i: int| 0 <= i < last.len() implies #[trigger] last[i] != '/' && last[i]
        != '\\' by {
        assert(portable_char(last[i]) == last[i]);
    }
    lemma_split_plain(last, seq![]);
    assert(Seq::<char>::empty() + last == last);
    if parts.len() == 1 {
        assert(parts == seq![last]);
    } else {
        let init = parts.drop_last();
        assert forall|i: int| 0 <= i < init.len() implies safe(#[trigger] init[i]) by {
            assert(init[i] == parts[i]);
        }
        lemma_split_joined(init);
        lemma_split_slash(joined(init), last, seq![]);
        assert(init + seq![last] == parts);
    }
}

/// A path that was written for the wire is accepted, and reading it gives back the
/// portable forms of its components.
pub proof fn law_wire_path_round_trip(path: Seq<Seq<char>>)
    requires
        path.len() > 0,
    ensures
        all_valid(components(joined(portable_all(path)))),
        portable_all(components(joined(portable_all(path)))) == portable_all(path),
{
    let parts = portable_all(path);
    assert forall|i: int| 0 <= i < parts.len() implies safe(#[trigger] parts[i]) by {
        law_portable_is_safe(path[i]);
    }
    lemma_split_joined(parts);
    assert forall|i: int| 0 <= i < parts.len() implies #[trigger] portable(parts[i])
        == parts[i] by {
        law_portable_is_idempotent(path[i]);
    }
    assert(portable_all(parts) == parts);
}

} // verus!
