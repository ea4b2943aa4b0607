//! Relative paths on the wire: portable components, traversal checks and keys
//! under which two paths collide.
//!
//! A path travels as raw bytes, so that names that are not UTF-8 survive.

use vstd::prelude::*;
use vstd::slice::{slice_subrange, slice_to_vec};
use vstd::utf8::{
    decode_first_scalar, decode_utf8, decode_utf8_encode_utf8, decode_utf8_first_scalar,
    encode_scalar, encode_utf8, is_ascii_chars, length_of_first_scalar, pop_first_scalar, valid_first_scalar, valid_utf8,
};

use crate::text::{chars_of, string_of, utf8_text};

verus! {

/// Why a path was refused.
#[derive(Debug, Clone, Copy, PartialEq, Eq, Structural)]
pub enum PathError {
    /// A component is empty, `.` or `..`.
    InvalidComponent,
    /// The path has no component.
    Empty,
}

/// A byte that no portable file name may hold is replaced by an underscore.
pub open spec fn portable_byte(b: u8) -> u8 {
    if b < 0x20 || b == '<' as u8 || b == '>' as u8 || b == ':' as u8 || b == '"' as u8 || b == '/' as u8 || b == '\\' as u8 || b
        == '|' as u8 || b == '?' as u8 || b == '*' as u8 {
        '_' as u8
    } else {
        b
    }
}

/// A name without the dots and spaces at its end.
pub open spec fn without_tail(s: Seq<u8>) -> Seq<u8>
    decreases s.len(),
{
    if s.len() > 0 && (s.last() == '.' as u8 || s.last() == ' ' as u8) {
        without_tail(s.drop_last())
    } else {
        s
    }
}

/// A letter in ASCII upper case.
pub open spec fn upper(b: u8) -> u8 {
    if 'a' as u8 <= b <= 'z' as u8 {
        (b - 0x20) as u8
    } else {
        b
    }
}

/// Where the first dot stands; the length where there is none.
pub open spec fn stem_len(s: Seq<u8>) -> nat
    decreases s.len(),
{
    if s.len() == 0 || s[0] == '.' as u8 {
        0
    } else {
        1 + stem_len(s.skip(1))
    }
}

/// The names of devices, which no file may have: CON, PRN, AUX, NUL, COM1 to
/// COM9 and LPT1 to LPT9, in any case.
pub open spec fn reserved(s: Seq<u8>) -> bool {
    ||| s.len() == 3 && {
        let (a, b, c) = (upper(s[0]), upper(s[1]), upper(s[2]));
        ||| a == 'C' as u8 && b == 'O' as u8 && c == 'N' as u8
        ||| a == 'P' as u8 && b == 'R' as u8 && c == 'N' as u8
        ||| a == 'A' as u8 && b == 'U' as u8 && c == 'X' as u8
        ||| a == 'N' as u8 && b == 'U' as u8 && c == 'L' as u8
    }
    ||| s.len() == 4 && '1' as u8 <= s[3] <= '9' as u8 && {
        let (a, b, c) = (upper(s[0]), upper(s[1]), upper(s[2]));
        ||| a == 'C' as u8 && b == 'O' as u8 && c == 'M' as u8
        ||| a == 'L' as u8 && b == 'P' as u8 && c == 'T' as u8
    }
}

/// The name with its bad bytes replaced and its tail removed; an underscore
/// where nothing is left.
pub open spec fn cleaned(value: Seq<u8>) -> Seq<u8> {
    let kept = without_tail(value.map_values(|b: u8| portable_byte(b)));
    if kept.len() == 0 {
        seq!['_' as u8]
    } else {
        kept
    }
}

/// The portable form of one path component: cleaned, and with an underscore
/// behind the stem where the stem names a device.
pub open spec fn portable(value: Seq<u8>) -> Seq<u8> {
    let name = cleaned(value);
    let end = stem_len(name) as int;
    if reserved(name.take(end)) {
        name.take(end).push('_' as u8) + name.skip(end)
    } else {
        name
    }
}

/// The views of a list of byte strings.
pub open spec fn byte_strings(v: Seq<Vec<u8>>) -> Seq<Seq<u8>> {
    v.map_values(|c: Vec<u8>| c@)
}

/// `stem_len` is the position of the first dot.
pub proof fn lemma_stem_len(s: Seq<u8>)
    ensures
        stem_len(s) <= s.len(),
        stem_len(s) < s.len() ==> s[stem_len(s) as int] == '.' as u8,
        forall|i: int| 0 <= i < stem_len(s) ==> s[i] != '.' as u8,
    decreases s.len(),
{
    if s.len() == 0 || s[0] == '.' as u8 {
    } else {
        lemma_stem_len(s.skip(1));
        assert forall|i: int| 0 <= i < stem_len(s) implies s[i] != '.' as u8 by {
            if i > 0 {
                assert(s.skip(1)[i - 1] == s[i]);
            }
        }
    }
}

/// The first dot is where `stem_len` says.
proof fn lemma_stem_is(s: Seq<u8>, at: int)
    requires
        0 <= at <= s.len(),
        forall|i: int| 0 <= i < at ==> s[i] != '.' as u8,
        at < s.len() ==> s[at] == '.' as u8,
    ensures
        stem_len(s) == at,
{
    lemma_stem_len(s);
}

fn portable_byte_of(b: u8) -> (r: u8)
    ensures
        r == portable_byte(b),
{
    if b < 0x20 || b == '<' as u8 || b == '>' as u8 || b == ':' as u8 || b == '"' as u8 || b == '/' as u8 || b == '\\' as u8 || b
        == '|' as u8 || b == '?' as u8 || b == '*' as u8 {
        '_' as u8
    } else {
        b
    }
}

fn upper_of(b: u8) -> (r: u8)
    ensures
        r == upper(b),
{
    if 'a' as u8 <= b && b <= 'z' as u8 {
        b - 0x20
    } else {
        b
    }
}

fn is_reserved(s: &[u8]) -> (r: bool)
    ensures
        r == reserved(s@),
{
    if s.len() != 3 && s.len() != 4 {
        return false;
    }
    let a: u8 = upper_of(s[0]);
    let b: u8 = upper_of(s[1]);
    let c: u8 = upper_of(s[2]);
    if s.len() == 3 {
        (a == 'C' as u8 && b == 'O' as u8 && c == 'N' as u8) || (a == 'P' as u8 && b == 'R' as u8 && c == 'N' as u8) || (a
            == 'A' as u8 && b == 'U' as u8 && c == 'X' as u8) || (a == 'N' as u8 && b == 'U' as u8 && c == 'L' as u8)
    } else {
        '1' as u8 <= s[3] && s[3] <= '9' as u8 && ((a == 'C' as u8 && b == 'O' as u8 && c == 'M' as u8) || (a == 'L' as u8 && b
            == 'P' as u8 && c == 'T' as u8))
    }
}

/// The portable form of one path component.
pub fn portable_component(value: &[u8]) -> (result: Vec<u8>)
    ensures
        result@ == portable(value@),
{
    let mut result: Vec<u8> = Vec::new();
    let mut i: usize = 0;
    let ghost mapped = value@.map_values(|b: u8| portable_byte(b));
    while i < value.len()
        invariant
            i <= value@.len(),
            mapped == value@.map_values(|b: u8| portable_byte(b)),
            result@ == mapped.take(i as int),
        decreases value@.len() - i,
    {
        proof {
            assert(mapped.take(i as int + 1) == mapped.take(i as int).push(mapped[i as int]));
        }
        result.push(portable_byte_of(value[i]));
        i += 1;
    }
    proof {
        assert(mapped.take(mapped.len() as int) == mapped);
    }
    while result.len() > 0 && (result[result.len() - 1] == '.' as u8 || result[result.len() - 1]
        == ' ' as u8)
        invariant
            without_tail(mapped) == without_tail(result@),
        decreases result@.len(),
    {
        let ghost before = result@;
        result.pop();
        proof {
            assert(before.drop_last() == result@);
        }
    }
    if result.is_empty() {
        result.push('_' as u8);
        proof {
            assert(result@ == seq!['_' as u8]);
        }
    }
    let mut end: usize = 0;
    while end < result.len() && result[end] != '.' as u8
        invariant
            end <= result@.len(),
            forall|j: int| 0 <= j < end ==> result@[j] != '.' as u8,
        decreases result@.len() - end,
    {
        end += 1;
    }
    proof {
        lemma_stem_is(result@, end as int);
    }
    let stem = slice_subrange(result.as_slice(), 0, end);
    proof {
        assert(stem@ == result@.take(end as int));
    }
    if is_reserved(stem) {
        let ghost before = result@;
        result.insert(end, '_' as u8);
        proof {
            assert(result@ == before.take(end as int).push('_' as u8) + before.skip(end as int));
        }
    }
    result
}

/// Both kinds of slash separate components.
pub open spec fn is_separator(b: u8) -> bool {
    b == '/' as u8 || b == '\\' as u8
}

/// The components of a path whose current component has begun.
pub open spec fn split_from(path: Seq<u8>, current: Seq<u8>) -> Seq<Seq<u8>>
    decreases path.len(),
{
    if path.len() == 0 {
        seq![current]
    } else if is_separator(path[0]) {
        seq![current] + split_from(path.skip(1), seq![])
    } else {
        split_from(path.skip(1), current.push(path[0]))
    }
}

/// What stands between the separators of a path.
pub open spec fn components(path: Seq<u8>) -> Seq<Seq<u8>> {
    split_from(path, seq![])
}

/// A component that may lead out of the directory, or nowhere.
pub open spec fn invalid(component: Seq<u8>) -> bool {
    component.len() == 0 || component == seq!['.' as u8] || component == seq!['.' as u8, '.' as u8]
}

/// Whether no component is empty, `.` or `..`.
pub open spec fn all_valid(components: Seq<Seq<u8>>) -> bool {
    forall|i: int| 0 <= i < components.len() ==> !invalid(#[trigger] components[i])
}

/// The portable forms of a list of components.
pub open spec fn portable_all(components: Seq<Seq<u8>>) -> Seq<Seq<u8>> {
    components.map_values(|c: Seq<u8>| portable(c))
}

/// A relative path as the list of its components.
#[derive(Debug, Clone, PartialEq, Eq)]
pub struct RelativePath {
    pub components: Vec<Vec<u8>>,
}

impl View for RelativePath {
    type V = Seq<Seq<u8>>;

    open spec fn view(&self) -> Seq<Seq<u8>> {
        byte_strings(self.components@)
    }
}

impl RelativePath {
    /// A copy of the path.
    pub fn copy(&self) -> (r: RelativePath)
        ensures
            r@ == self@,
    {
        RelativePath { components: copy_all(&self.components) }
    }

    /// The path with one more component.
    pub fn join(&self, name: &[u8]) -> (r: RelativePath)
        ensures
            r@ == self@.push(name@),
    {
        let mut r = self.copy();
        r.components.push(slice_to_vec(name));
        proof {
            assert(r@ == self@.push(name@));
        }
        r
    }
}

/// Copies a list of byte strings.
pub fn copy_all(items: &Vec<Vec<u8>>) -> (r: Vec<Vec<u8>>)
    ensures
        byte_strings(r@) == byte_strings(items@),
{
    let mut r: Vec<Vec<u8>> = Vec::new();
    let mut i: usize = 0;
    while i < items.len()
        invariant
            i <= items@.len(),
            byte_strings(r@) == byte_strings(items@).take(i as int),
        decreases items@.len() - i,
    {
        let ghost before = r@;
        r.push(slice_to_vec(items[i].as_slice()));
        proof {
            assert(byte_strings(r@) == byte_strings(before).push(items@[i as int]@));
            assert(byte_strings(items@).take(i as int + 1) == byte_strings(items@).take(
                i as int,
            ).push(items@[i as int]@));
        }
        i += 1;
    }
    proof {
        assert(byte_strings(items@).take(items@.len() as int) == byte_strings(items@));
    }
    r
}

/// Whether a component is empty, `.` or `..`.
pub fn is_invalid(component: &[u8]) -> (r: bool)
    ensures
        r == invalid(component@),
{
    if component.len() == 0 {
        return true;
    }
    if component.len() == 1 {
        proof {
            if component@[0] == '.' as u8 {
                assert(component@ == seq!['.' as u8]);
            }
        }
        return component[0] == '.' as u8;
    }
    if component.len() == 2 {
        proof {
            if component@[0] == '.' as u8 && component@[1] == '.' as u8 {
                assert(component@ == seq!['.' as u8, '.' as u8]);
            }
        }
        return component[0] == '.' as u8 && component[1] == '.' as u8;
    }
    false
}

/// Moves a finished component, in its portable form, to the end of a path. A
/// component that is empty, `.` or `..` is refused and nothing changes.
pub fn push_safe_component(component: &mut Vec<u8>, result: &mut RelativePath) -> (r: Result<
    (),
    PathError,
>)
    ensures
        r is Err <==> invalid(old(component)@),
        r matches Err(error) ==> error == PathError::InvalidComponent && *final(component) == *old(
            component,
        ) && *final(result) == *old(result),
        r is Ok ==> final(component)@ == Seq::<u8>::empty() && final(result)@ == old(result)@.push(
            portable(old(component)@),
        ),
{
    if is_invalid(component.as_slice()) {
        return Err(PathError::InvalidComponent);
    }
    let ghost before = result@;
    let name = portable_component(component.as_slice());
    result.components.push(name);
    component.clear();
    proof {
        assert(result@ == before.push(name@));
    }
    Ok(())
}

/// Reads a path from the wire. It is refused if and only if a component is
/// empty, `.` or `..`; else every component takes its portable form.
pub fn safe_relative_path(path: &[u8]) -> (r: Result<RelativePath, PathError>)
    ensures
        r is Ok <==> all_valid(components(path@)),
        r matches Ok(relative) ==> relative@ == portable_all(components(path@)),
        r matches Err(error) ==> error == PathError::InvalidComponent,
{
    let mut result = RelativePath { components: Vec::new() };
    let mut component: Vec<u8> = Vec::new();
    let mut i: usize = 0;
    let ghost mut done: Seq<Seq<u8>> = seq![];
    proof {
        assert(path@.skip(0) == path@);
        assert(component@ == Seq::<u8>::empty());
        assert(done + components(path@) == components(path@));
        assert(result@ == portable_all(done));
    }
    while i < path.len()
        invariant
            i <= path@.len(),
            components(path@) == done + split_from(path@.skip(i as int), component@),
            all_valid(done),
            result@ == portable_all(done),
        decreases path@.len() - i,
    {
        let byte: u8 = path[i];
        let ghost rest = path@.skip(i as int);
        proof {
            assert(rest.skip(1) == path@.skip(i as int + 1));
            assert(rest[0] == byte);
        }
        if byte == '/' as u8 || byte == '\\' as u8 {
            let ghost part = component@;
            if let Err(error) = push_safe_component(&mut component, &mut result) {
                proof {
                    assert(components(path@)[done.len() as int] == part);
                }
                return Err(error);
            }
            proof {
                assert(component@ == Seq::<u8>::empty());
                assert(done + (seq![part] + split_from(rest.skip(1), seq![])) == done.push(part)
                    + split_from(rest.skip(1), seq![]));
                assert(portable_all(done.push(part)) == portable_all(done).push(portable(part)));
                done = done.push(part);
            }
        } else {
            component.push(byte);
        }
        i += 1;
    }
    let ghost part = component@;
    proof {
        assert(components(path@) == done.push(part));
        assert(portable_all(done.push(part)) == portable_all(done).push(portable(part)));
    }
    if let Err(error) = push_safe_component(&mut component, &mut result) {
        proof {
            assert(components(path@)[done.len() as int] == part);
        }
        return Err(error);
    }
    Ok(result)
}

/// Components joined by slashes.
pub open spec fn joined(components: Seq<Seq<u8>>) -> Seq<u8>
    decreases components.len(),
{
    if components.len() == 0 {
        seq![]
    } else if components.len() == 1 {
        components[0]
    } else {
        joined(components.drop_last()).push('/' as u8) + components.last()
    }
}

/// Writes a path for the wire: its components in their portable form, joined by
/// slashes. A path without components is refused, and so is one with a
/// component that is empty, `.` or `..`.
pub fn portable_relative_path(path: &RelativePath) -> (r: Result<Vec<u8>, PathError>)
    ensures
        r is Ok <==> path@.len() > 0 && all_valid(path@),
        r matches Ok(wire) ==> wire@ == joined(portable_all(path@)),
        r == Err::<Vec<u8>, PathError>(PathError::InvalidComponent) <==> !all_valid(path@),
        r == Err::<Vec<u8>, PathError>(PathError::Empty) <==> path@.len() == 0,
{
    let mut wire: Vec<u8> = Vec::new();
    let mut i: usize = 0;
    proof {
        assert(wire@ == joined(portable_all(path@).take(0)));
    }
    while i < path.components.len()
        invariant
            i <= path@.len(),
            path@.len() == path.components@.len(),
            all_valid(path@.take(i as int)),
            wire@ == joined(portable_all(path@).take(i as int)),
        decreases path.components@.len() - i,
    {
        let component = &path.components[i];
        proof {
            assert(component@ == path@[i as int]);
        }
        if is_invalid(component.as_slice()) {
            proof {
                assert(!all_valid(path@));
            }
            return Err(PathError::InvalidComponent);
        }
        let mut portable_name = portable_component(component.as_slice());
        let ghost next = portable_all(path@).take(i as int + 1);
        proof {
            assert(next.drop_last() == portable_all(path@).take(i as int));
            assert(next.last() == portable_name@);
            assert forall|j: int| 0 <= j < path@.take(i as int + 1).len() implies !invalid(
                #[trigger] path@.take(i as int + 1)[j],
            ) by {
                if j < i {
                    assert(path@.take(i as int)[j] == path@.take(i as int + 1)[j]);
                }
            }
        }
        if i > 0 {
            wire.push('/' as u8);
        }
        wire.append(&mut portable_name);
        proof {
            assert(wire@ == joined(next));
        }
        i += 1;
    }
    proof {
        assert(path@.take(path@.len() as int) == path@);
        assert(portable_all(path@).take(path@.len() as int) == portable_all(path@));
    }
    if path.components.len() == 0 {
        return Err(PathError::Empty);
    }
    Ok(wire)
}

/// The lower case of a text, as `str::to_lowercase` gives it.
pub uninterp spec fn lowercase(text: Seq<char>) -> Seq<char>;

/// A character, in lower case if it is an ASCII letter.
pub open spec fn lower_char(c: char) -> char {
    if 'A' <= c <= 'Z' {
        ((c as u8 + 0x20) as u8) as char
    } else {
        c
    }
}

/// A text with its ASCII letters in lower case.
pub open spec fn ascii_lowered(text: Seq<char>) -> Seq<char> {
    text.map_values(|c: char| lower_char(c))
}

/// `str::to_lowercase` follows the Unicode tables; its result is named. An ASCII text
/// has its letters in lower case then, and in any text it makes no difference whether
/// an ASCII letter stood there in upper or in lower case.
#[verifier::external_body]
fn to_lowercase(text: &str) -> (lower: String)
    ensures
        lower@ == lowercase(text@),
        lower@ == lowercase(ascii_lowered(text@)),
        is_ascii_chars(text@) ==> lower@ == ascii_lowered(text@),
{
    text.to_lowercase()
}

/// A text with slashes for backslashes.
pub open spec fn slashed(text: Seq<char>) -> Seq<char> {
    text.map_values(
        |c: char|
            if c == '\\' {
                '/'
            } else {
                c
            },
    )
}

/// A byte of a path that is not UTF-8: a slash for a backslash, and ASCII lower
/// case.
pub open spec fn folded(b: u8) -> u8 {
    if b == '\\' as u8 {
        '/' as u8
    } else if 'A' as u8 <= b <= 'Z' as u8 {
        (b + 0x20) as u8
    } else {
        b
    }
}

/// The text under which two UTF-8 paths collide: with slashes, in lower case.
pub open spec fn collision_text(text: Seq<char>) -> Seq<char> {
    let lowered = ascii_lowered(slashed(text));
    if is_ascii_chars(lowered) {
        lowered
    } else {
        lowercase(lowered)
    }
}

/// The key under which two paths collide: their text in lower case where they
/// are UTF-8, their bytes in ASCII lower case where they are not.
pub open spec fn collision_key(path: Seq<u8>) -> Seq<u8> {
    if valid_utf8(path) {
        encode_utf8(collision_text(decode_utf8(path)))
    } else {
        path.map_values(|b: u8| folded(b))
    }
}

/// The key under which a path collides with others.
pub fn path_collision_key(path: &[u8]) -> (key: Vec<u8>)
    ensures
        key@ == collision_key(path@),
{
    if let Some(text) = utf8_text(path) {
        let mut chars = chars_of(text.as_str());
        let ghost unslashed = chars@;
        let mut i: usize = 0;
        while i < chars.len()
            invariant
                i <= chars@.len(),
                chars@.len() == unslashed.len(),
                chars@ == slashed(unslashed).take(i as int) + unslashed.skip(i as int),
            decreases chars@.len() - i,
        {
            if chars[i] == '\\' {
                chars.set(i, '/');
            }
            i += 1;
            proof {
                assert(chars@ == slashed(unslashed).take(i as int) + unslashed.skip(i as int));
            }
        }
        proof {
            assert(chars@ == slashed(unslashed));
        }
        let replaced = string_of(chars.as_slice());
        let lower = to_lowercase(replaced.as_str());
        proof {
            let slashes = slashed(unslashed);
            let lowered = ascii_lowered(slashes);
            if is_ascii_chars(lowered) {
                assert forall|i: int| 0 <= i < slashes.len() implies '\0' <= #[trigger] slashes[i]
                    <= '\u{7f}' by {
                    assert(lowered[i] == lower_char(slashes[i]));
                }
            }
            assert(lower@ == collision_text(unslashed));
        }
        return slice_to_vec(lower.as_str().as_bytes());
    }
    let mut key: Vec<u8> = Vec::new();
    let ghost mapped = path@.map_values(|b: u8| folded(b));
    let mut i: usize = 0;
    while i < path.len()
        invariant
            i <= path@.len(),
            mapped == path@.map_values(|b: u8| folded(b)),
            key@ == mapped.take(i as int),
        decreases path@.len() - i,
    {
        let byte: u8 = path[i];
        proof {
            assert(mapped.take(i as int + 1) == mapped.take(i as int).push(mapped[i as int]));
        }
        if byte == '\\' as u8 {
            key.push('/' as u8);
        } else if 'A' as u8 <= byte && byte <= 'Z' as u8 {
            key.push(byte + 0x20);
        } else {
            key.push(byte);
        }
        i += 1;
    }
    proof {
        assert(mapped.take(mapped.len() as int) == mapped);
    }
    key
}

/// The key of a path given by its components: that of its wire form.
pub fn normalized_collision_key(path: &RelativePath) -> (r: Result<Vec<u8>, PathError>)
    ensures
        r is Ok <==> path@.len() > 0 && all_valid(path@),
        r matches Ok(key) ==> key@ == collision_key(joined(portable_all(path@))),
        r == Err::<Vec<u8>, PathError>(PathError::InvalidComponent) <==> !all_valid(path@),
        r == Err::<Vec<u8>, PathError>(PathError::Empty) <==> path@.len() == 0,
{
    match portable_relative_path(path) {
        Ok(wire) => Ok(path_collision_key(wire.as_slice())),
        Err(error) => Err(error),
    }
}

/// A byte string as readable text, as `String::from_utf8_lossy` gives it.
pub uninterp spec fn lossy(bytes: Seq<u8>) -> Seq<char>;

/// `String::from_utf8_lossy` gives the text of well-formed UTF-8 unchanged, and
/// else puts replacement characters in; that part is named, not stated.
#[verifier::external_body]
pub(crate) fn lossy_text(bytes: &[u8]) -> (text: String)
    ensures
        text@ == lossy(bytes@),
        valid_utf8(bytes@) ==> text@ == decode_utf8(bytes@),
{
    String::from_utf8_lossy(bytes).into_owned()
}

/// A path for people to read.
pub fn path_display(path: &[u8]) -> (text: String)
    ensures
        text@ == lossy(path@),
        valid_utf8(path@) ==> text@ == decode_utf8(path@),
{
    lossy_text(path)
}

/// A character that any file system takes, else an underscore.
pub open spec fn safe_char(c: char) -> char {
    if 'a' <= c <= 'z' || 'A' <= c <= 'Z' || '0' <= c <= '9' || c == '-' || c == '_' {
        c
    } else {
        '_'
    }
}

/// A text with an underscore for every character but ASCII letters, digits,
/// hyphens and underscores.
pub fn safe_component(value: &str) -> (r: String)
    ensures
        r@ == value@.map_values(|c: char| safe_char(c)),
{
    let chars = chars_of(value);
    let mut r = String::new();
    let ghost mapped = value@.map_values(|c: char| safe_char(c));
    let mut i: usize = 0;
    while i < chars.len()
        invariant
            i <= chars@.len(),
            chars@ == value@,
            mapped == value@.map_values(|c: char| safe_char(c)),
            r@ == mapped.take(i as int),
        decreases chars@.len() - i,
    {
        let c = chars[i];
        proof {
            assert(mapped.take(i as int + 1) == mapped.take(i as int).push(mapped[i as int]));
        }
        if ('a' <= c && c <= 'z') || ('A' <= c && c <= 'Z') || ('0' <= c && c <= '9') || c == '-'
            || c == '_' {
            r.push(c);
        } else {
            r.push('_');
        }
        i += 1;
    }
    proof {
        assert(mapped.take(mapped.len() as int) == mapped);
    }
    r
}

/// A component that stays in its directory on every system: not empty, `.` or
/// `..`, free of separators and of the other bytes that a portable name may not
/// hold, without a dot or a space at its end, and naming no device.
pub open spec fn safe(component: Seq<u8>) -> bool {
    &&& !invalid(component)
    &&& forall|i: int| 0 <= i < component.len() ==> portable_byte(#[trigger] component[i]) == component[i]
    &&& component.last() != '.' as u8
    &&& component.last() != ' ' as u8
    &&& !reserved(component.take(stem_len(component) as int))
}

proof fn lemma_without_tail(s: Seq<u8>)
    ensures
        without_tail(s).len() <= s.len(),
        without_tail(s) == s.take(without_tail(s).len() as int),
        without_tail(s).len() > 0 ==> without_tail(s).last() != '.' as u8 && without_tail(s).last()
            != ' ' as u8,
    decreases s.len(),
{
    if s.len() > 0 && (s.last() == '.' as u8 || s.last() == ' ' as u8) {
        lemma_without_tail(s.drop_last());
        assert(s.drop_last().take(without_tail(s).len() as int) == s.take(
            without_tail(s).len() as int,
        ));
    } else {
        assert(s.take(s.len() as int) == s);
    }
}

proof fn lemma_cleaned(value: Seq<u8>)
    ensures
        cleaned(value).len() > 0,
        forall|i: int|
            0 <= i < cleaned(value).len() ==> portable_byte(#[trigger] cleaned(value)[i])
                == cleaned(value)[i],
        cleaned(value).last() != '.' as u8,
        cleaned(value).last() != ' ' as u8,
{
    let mapped = value.map_values(|b: u8| portable_byte(b));
    lemma_without_tail(mapped);
    assert forall|i: int| 0 <= i < cleaned(value).len() implies portable_byte(
        #[trigger] cleaned(value)[i],
    ) == cleaned(value)[i] by {
        if without_tail(mapped).len() > 0 {
            assert(without_tail(mapped)[i] == mapped[i]);
        }
    }
}

/// The portable form of any component at all is safe.
pub proof fn law_portable_is_safe(value: Seq<u8>)
    ensures
        safe(portable(value)),
{
    let name = cleaned(value);
    lemma_cleaned(value);
    lemma_stem_len(name);
    let end = stem_len(name) as int;
    let result = portable(value);
    if reserved(name.take(end)) {
        assert(result == name.take(end).push('_' as u8) + name.skip(end));
        assert forall|i: int| 0 <= i < result.len() implies portable_byte(#[trigger] result[i])
            == result[i] by {
            if i < end {
                assert(result[i] == name[i]);
            } else if i > end {
                assert(result[i] == name[i - 1]);
            }
        }
        lemma_stem_is(result, end + 1);
        assert(result.take(end + 1)[end] == '_' as u8);
        if end < name.len() {
            assert(result.last() == name.last());
        }
    }
    assert(result.last() != '.' as u8);
    assert(!invalid(result));
}

/// Taking the portable form twice changes nothing more.
pub proof fn law_portable_is_idempotent(value: Seq<u8>)
    ensures
        portable(portable(value)) == portable(value),
{
    law_portable_is_safe(value);
    let name = portable(value);
    assert(name.map_values(|b: u8| portable_byte(b)) == name);
    assert(without_tail(name) == name);
    assert(cleaned(name) == name);
}

/// No path that is accepted from the wire leaves the directory it is put in.
pub proof fn law_safe_path_stays_inside(path: Seq<u8>)
    requires
        all_valid(components(path)),
    ensures
        portable_all(components(path)).len() > 0,
        forall|i: int|
            0 <= i < portable_all(components(path)).len() ==> safe(
                #[trigger] portable_all(components(path))[i],
            ),
{
    lemma_split_len(path, seq![]);
    assert forall|i: int| 0 <= i < portable_all(components(path)).len() implies safe(
        #[trigger] portable_all(components(path))[i],
    ) by {
        law_portable_is_safe(components(path)[i]);
    }
}

proof fn lemma_split_len(path: Seq<u8>, current: Seq<u8>)
    ensures
        split_from(path, current).len() > 0,
    decreases path.len(),
{
    if path.len() > 0 {
        if !is_separator(path[0]) {
            lemma_split_len(path.skip(1), current.push(path[0]));
        }
    }
}

/// Without separators, all of it is one component.
pub proof fn lemma_split_plain(path: Seq<u8>, current: Seq<u8>)
    requires
        forall|i: int| 0 <= i < path.len() ==> !is_separator(#[trigger] path[i]),
    ensures
        split_from(path, current) == seq![current + path],
    decreases path.len(),
{
    if path.len() == 0 {
        assert(current + path == current);
    } else {
        assert forall|i: int| 0 <= i < path.skip(1).len() implies !is_separator(
            #[trigger] path.skip(1)[i],
        ) by {
            assert(path.skip(1)[i] == path[i + 1]);
        }
        lemma_split_plain(path.skip(1), current.push(path[0]));
        assert(current.push(path[0]) + path.skip(1) == current + path);
    }
}

/// A slash parts what stands before it from what stands behind.
proof fn lemma_split_slash(before: Seq<u8>, behind: Seq<u8>, current: Seq<u8>)
    ensures
        split_from(before.push('/' as u8) + behind, current) == split_from(before, current)
            + components(behind),
    decreases before.len(),
{
    let whole = before.push('/' as u8) + behind;
    if before.len() == 0 {
        assert(whole.skip(1) == behind);
        assert(whole[0] == '/' as u8);
    } else {
        assert(whole[0] == before[0]);
        assert(whole.skip(1) == before.skip(1).push('/' as u8) + behind);
        if is_separator(before[0]) {
            lemma_split_slash(before.skip(1), behind, seq![]);
            assert(seq![current] + (split_from(before.skip(1), seq![]) + components(behind)) == (seq![
                current,
            ] + split_from(before.skip(1), seq![])) + components(behind));
        } else {
            lemma_split_slash(before.skip(1), behind, current.push(before[0]));
        }
    }
}

/// Splitting what was joined gives the components back.
proof fn lemma_split_joined(parts: Seq<Seq<u8>>)
    requires
        parts.len() > 0,
        forall|i: int| 0 <= i < parts.len() ==> safe(#[trigger] parts[i]),
    ensures
        components(joined(parts)) == parts,
    decreases parts.len(),
{
    let last = parts.last();
    assert(safe(parts[parts.len() - 1]));
    assert forall|i: int| 0 <= i < last.len() implies !is_separator(#[trigger] last[i]) by {
        assert(portable_byte(last[i]) == last[i]);
    }
    lemma_split_plain(last, seq![]);
    assert(Seq::<u8>::empty() + last == last);
    if parts.len() == 1 {
        assert(parts == seq![last]);
    } else {
        let init = parts.drop_last();
        assert forall|i: int| 0 <= i < init.len() implies safe(#[trigger] init[i]) by {
            assert(init[i] == parts[i]);
        }
        lemma_split_joined(init);
        lemma_split_slash(joined(init), last, seq![]);
        assert(init + seq![last] == parts);
    }
}

/// A path that was written for the wire is accepted, and reading it gives back
/// the portable forms of its components.
pub proof fn law_wire_path_round_trip(path: Seq<Seq<u8>>)
    requires
        path.len() > 0,
    ensures
        all_valid(components(joined(portable_all(path)))),
        portable_all(components(joined(portable_all(path)))) == portable_all(path),
{
    let parts = portable_all(path);
    assert forall|i: int| 0 <= i < parts.len() implies safe(#[trigger] parts[i]) by {
        law_portable_is_safe(path[i]);
    }
    lemma_split_joined(parts);
    assert forall|i: int| 0 <= i < parts.len() implies #[trigger] portable(parts[i]) == parts[i] by {
        law_portable_is_idempotent(path[i]);
    }
    assert(portable_all(parts) == parts);
}

/// A character with a slash for a backslash, in lower case if it is an ASCII letter.
spec fn folded_char(c: char) -> char {
    lower_char(
        if c == '\\' {
            '/'
        } else {
            c
        },
    )
}

/// Folding the bytes of a text folds its characters, and makes no text of what is none.
proof fn lemma_folded(path: Seq<u8>)
    ensures
        valid_utf8(path.map_values(|b: u8| folded(b))) == valid_utf8(path),
        valid_utf8(path) ==> decode_utf8(path.map_values(|b: u8| folded(b))) == decode_utf8(
            path,
        ).map_values(|c: char| folded_char(c)),
    decreases path.len(),
{
    let mapped = path.map_values(|b: u8| folded(b));
    if path.len() == 0 {
        assert(mapped == path);
        assert(decode_utf8(path).map_values(|c: char| folded_char(c)) == Seq::<char>::empty());
    } else {
        let first = path[0];
        assert(mapped[0] == folded(first));
        if first <= 0x7f {
            let small = folded(first);
            assert(first & 0x7f == first) by (bit_vector)
                requires
                    first <= 0x7f,
            ;
            assert(small & 0x7f == small) by (bit_vector)
                requires
                    small <= 0x7f,
            ;
            assert(decode_first_scalar(path) == first as u32);
            assert(decode_first_scalar(mapped) == small as u32);
        } else {
            assert(folded(first) == first);
            if path.len() > 1 {
                assert(mapped[1] == folded(path[1]));
            }
            if path.len() > 2 {
                assert(mapped[2] == folded(path[2]));
            }
            if path.len() > 3 {
                assert(mapped[3] == folded(path[3]));
            }
        }
        assert(valid_first_scalar(mapped) == valid_first_scalar(path));
        if valid_first_scalar(path) {
            let rest = pop_first_scalar(path);
            assert(length_of_first_scalar(mapped) == length_of_first_scalar(path));
            assert(rest.map_values(|b: u8| folded(b)) == pop_first_scalar(mapped));
            lemma_folded(rest);
            if valid_utf8(path) {
                let c = decode_first_scalar(path) as char;
                let d = decode_first_scalar(mapped) as char;
                if first > 0x7f {
                    decode_utf8_first_scalar(path);
                    assert(encode_scalar(c as u32).len() > 1);
                    assert(c as u32 > 0x7f);
                    assert(decode_first_scalar(mapped) == decode_first_scalar(path));
                    assert(folded_char(c) == c);
                } else {
                    assert(c == first as char);
                    assert(d == folded(first) as char);
                }
                assert(d == folded_char(c));
                assert(decode_utf8(path).map_values(|c: char| folded_char(c)) == seq![
                    folded_char(c),
                ] + decode_utf8(rest).map_values(|c: char| folded_char(c)));
            }
        }
    }
}

/// The key of a text is that of the text with slashes and with its ASCII letters in lower
/// case.
proof fn lemma_collision_folded(path: Seq<u8>)
    ensures
        collision_key(path) == collision_key(path.map_values(|b: u8| folded(b))),
{
    let mapped = path.map_values(|b: u8| folded(b));
    lemma_folded(path);
    if valid_utf8(path) {
        let text = decode_utf8(path);
        let lowered = ascii_lowered(slashed(text));
        assert(ascii_lowered(slashed(decode_utf8(mapped))) == lowered) by {
            assert forall|i: int| 0 <= i < text.len() implies ascii_lowered(
                slashed(decode_utf8(mapped)),
            )[i] == lowered[i] by {
                assert(decode_utf8(mapped)[i] == folded_char(text[i]));
            }
        }
    } else {
        assert(mapped.map_values(|b: u8| folded(b)) == mapped);
    }
}

/// Two paths that differ in nothing but the case of ASCII letters, and slashes against
/// backslashes, collide.
pub proof fn law_collision_ignores_ascii_case(a: Seq<u8>, b: Seq<u8>)
    requires
        a.len() == b.len(),
        forall|i: int| 0 <= i < a.len() ==> folded(#[trigger] a[i]) == folded(b[i]),
    ensures
        collision_key(a) == collision_key(b),
{
    lemma_collision_folded(a);
    lemma_collision_folded(b);
    assert(a.map_values(|x: u8| folded(x)) == b.map_values(|x: u8| folded(x)));
}

/// The key of an ASCII path, or of one that is not UTF-8, is the path with slashes for
/// backslashes and its ASCII letters in lower case; and it is its own key.
pub proof fn law_collision_key_is_settled(path: Seq<u8>)
    requires
        valid_utf8(path) ==> is_ascii_chars(decode_utf8(path)),
    ensures
        collision_key(path) == path.map_values(|b: u8| folded(b)),
        collision_key(collision_key(path)) == collision_key(path),
{
    let mapped = path.map_values(|b: u8| folded(b));
    lemma_collision_folded(path);
    if valid_utf8(path) {
        let text = decode_utf8(path);
        let lowered = ascii_lowered(slashed(text));
        lemma_folded(path);
        decode_utf8_encode_utf8(mapped);
        assert(decode_utf8(mapped) == lowered);
        assert forall|i: int| 0 <= i < lowered.len() implies '\0' <= #[trigger] lowered[i]
            <= '\u{7f}' by {
            assert('\0' <= text[i] <= '\u{7f}');
        }
    }
}

/// Slashes and backslashes make no difference to collisions: a UTF-8 path and
/// the same path with its backslashes turned into slashes have one key.
pub proof fn law_collision_ignores_slash_kind(text: Seq<char>)
    ensures
        collision_key(encode_utf8(text)) == collision_key(encode_utf8(slashed(text))),
{
    vstd::utf8::encode_utf8_valid_utf8(text);
    vstd::utf8::encode_utf8_decode_utf8(text);
    vstd::utf8::encode_utf8_valid_utf8(slashed(text));
    vstd::utf8::encode_utf8_decode_utf8(slashed(text));
    assert(slashed(slashed(text)) == slashed(text));
    assert(collision_text(slashed(text)) == collision_text(text));
}

} // verus!
