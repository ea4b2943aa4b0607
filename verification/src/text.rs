//! Text as sequences of characters: building, trimming, splitting, decimal and
//! hexadecimal numerals, and literal replacement.

use vstd::prelude::*;
use vstd::string::StringExecFns;
use vstd::utf8::{decode_utf8, valid_utf8};

verus! {

/// `String::push` appends one character.
pub assume_specification[ String::push ](s: &mut String, c: char)
    ensures
        final(s)@ == old(s)@.push(c),
;

/// `core::str::from_utf8` accepts exactly the well-formed UTF-8 byte strings
/// and gives back the text that they encode.
#[verifier::external_body]
pub(crate) fn utf8_text(bytes: &[u8]) -> (text: Option<String>)
    ensures
        text is Some <==> valid_utf8(bytes@),
        text matches Some(text) ==> text@ == decode_utf8(bytes@),
{
    core::str::from_utf8(bytes).ok().map(String::from)
}

/// The characters of a text, in order.
pub fn chars_of(text: &str) -> (chars: Vec<char>)
    ensures
        chars@ == text@,
{
    let mut chars: Vec<char> = Vec::new();
    for c in it: text.chars()
        invariant
            it.seq() == text@,
            chars@ == text@.take(it.index() as int),
    {
        proof {
            assert(text@.take(it.index() as int + 1) == text@.take(it.index() as int).push(c));
        }
        chars.push(c);
    }
    proof {
        assert(text@.take(text@.len() as int) == text@);
    }
    chars
}

/// The text that holds the given characters.
pub fn string_of(chars: &[char]) -> (text: String)
    ensures
        text@ == chars@,
{
    let mut text = String::new();
    let mut i: usize = 0;
    while i < chars.len()
        invariant
            i <= chars@.len(),
            text@ == chars@.take(i as int),
        decreases chars@.len() - i,
    {
        proof {
            assert(chars@.take(i as int + 1) == chars@.take(i as int).push(chars@[i as int]));
        }
        text.push(chars[i]);
        i += 1;
    }
    proof {
        assert(chars@.take(chars@.len() as int) == chars@);
    }
    text
}

/// Whether two byte strings are equal.
pub fn same_bytes(a: &[u8], b: &[u8]) -> (same: bool)
    ensures
        same == (a@ == b@),
{
    if a.len() != b.len() {
        return false;
    }
    let mut i: usize = 0;
    while i < a.len()
        invariant
            i <= a@.len(),
            a@.len() == b@.len(),
            a@.take(i as int) == b@.take(i as int),
        decreases a@.len() - i,
    {
        if a[i] != b[i] {
            return false;
        }
        proof {
            assert(a@.take(i as int + 1) == a@.take(i as int).push(a@[i as int]));
            assert(b@.take(i as int + 1) == b@.take(i as int).push(b@[i as int]));
        }
        i += 1;
    }
    proof {
        assert(a@.take(a@.len() as int) == a@);
        assert(b@.take(b@.len() as int) == b@);
    }
    true
}

/// Whether two texts hold the same characters.
pub fn same_text(a: &str, b: &str) -> (same: bool)
    ensures
        same == (a@ == b@),
{
    let same = same_bytes(a.as_bytes(), b.as_bytes());
    proof {
        vstd::utf8::encode_utf8_decode_utf8(a@);
        vstd::utf8::encode_utf8_decode_utf8(b@);
    }
    same
}

/// The character of a digit below sixteen, in lower case.
pub open spec fn digit_char(d: nat) -> char {
    if d < 10 {
        (('0' as nat) + d) as char
    } else {
        (('a' as nat) + d - 10) as char
    }
}

/// The decimal numeral of a number.
pub open spec fn decimal(n: nat) -> Seq<char>
    decreases n,
{
    if n < 10 {
        seq![digit_char(n)]
    } else {
        decimal(n / 10).push(digit_char(n % 10))
    }
}

/// Different numbers are written differently.
pub proof fn lemma_decimal_injective(m: nat, n: nat)
    requires
        decimal(m) == decimal(n),
    ensures
        m == n,
    decreases m,
{
    if m < 10 && n < 10 {
        assert(decimal(m)[0] == digit_char(m));
        assert(decimal(n)[0] == digit_char(n));
        assert(digit_char(m) as nat == '0' as nat + m);
        assert(digit_char(n) as nat == '0' as nat + n);
    } else if m < 10 {
        assert(decimal(n) == decimal(n / 10).push(digit_char(n % 10)));
        lemma_decimal_len(n / 10);
        assert(decimal(m).len() == 1);
        assert(decimal(n).len() > 1);
    } else if n < 10 {
        assert(decimal(m) == decimal(m / 10).push(digit_char(m % 10)));
        lemma_decimal_len(m / 10);
        assert(decimal(n).len() == 1);
        assert(decimal(m).len() > 1);
    } else {
        assert(decimal(m).drop_last() == decimal(m / 10));
        assert(decimal(n).drop_last() == decimal(n / 10));
        lemma_decimal_injective(m / 10, n / 10);
        assert(decimal(m).last() == decimal(n).last());
        assert(digit_char(m % 10) as nat == '0' as nat + m % 10);
        assert(digit_char(n % 10) as nat == '0' as nat + n % 10);
        assert(decimal(m).last() == digit_char(m % 10));
        assert(decimal(n).last() == digit_char(n % 10));
        assert(m % 10 == n % 10);
    }
}

proof fn lemma_decimal_len(n: nat)
    ensures
        decimal(n).len() > 0,
{
}

/// The last `width` hexadecimal digits of a number, with leading zeros.
pub open spec fn hex(n: nat, width: nat) -> Seq<char>
    decreases width,
{
    if width == 0 {
        seq![]
    } else {
        hex(n / 16, (width - 1) as nat).push(digit_char(n % 16))
    }
}

/// The character of a digit below sixteen.
pub fn digit(d: u8) -> (c: char)
    requires
        d < 16,
    ensures
        c == digit_char(d as nat),
{
    if d < 10 {
        (48u8 + d) as char
    } else {
        (87u8 + d) as char
    }
}

/// The characters of a text written backwards.
fn reversed_text(digits: &Vec<char>) -> (text: String)
    ensures
        text@ == digits@.reverse(),
{
    let mut text = String::new();
    let mut i: usize = digits.len();
    while i > 0
        invariant
            i <= digits@.len(),
            text@ == digits@.skip(i as int).reverse(),
        decreases i,
    {
        i -= 1;
        proof {
            assert(digits@.skip(i as int).reverse() == digits@.skip(i as int + 1).reverse().push(
                digits@[i as int],
            ));
        }
        text.push(digits[i]);
    }
    proof {
        assert(digits@.skip(0) == digits@);
    }
    text
}

/// Writes a number in decimal.
pub fn decimal_text(n: u128) -> (text: String)
    ensures
        text@ == decimal(n as nat),
{
    let mut digits: Vec<char> = Vec::new();
    let mut rest: u128 = n;
    while rest >= 10
        invariant
            decimal(n as nat) == decimal(rest as nat) + digits@.reverse(),
        decreases rest,
    {
        let ghost before = digits@;
        let ghost whole = decimal(rest as nat);
        digits.push(digit((rest % 10) as u8));
        rest = rest / 10;
        proof {
            assert(whole + before.reverse() == decimal(rest as nat) + digits@.reverse());
        }
    }
    let ghost before = digits@;
    digits.push(digit(rest as u8));
    proof {
        assert(decimal(rest as nat) + before.reverse() == digits@.reverse());
    }
    reversed_text(&digits)
}

/// Writes a number as sixteen hexadecimal digits.
pub fn hex_text(n: u64) -> (text: String)
    ensures
        text@ == hex(n as nat, 16),
{
    let mut digits: Vec<char> = Vec::new();
    let mut rest: u64 = n;
    let mut width: u8 = 16;
    while width > 0
        invariant
            width <= 16,
            hex(n as nat, 16) == hex(rest as nat, width as nat) + digits@.reverse(),
        decreases width,
    {
        let ghost before = digits@;
        let ghost whole = hex(rest as nat, width as nat);
        digits.push(digit((rest % 16) as u8));
        rest = rest / 16;
        width -= 1;
        proof {
            assert(whole + before.reverse() == hex(rest as nat, width as nat) + digits@.reverse());
        }
    }
    proof {
        assert(hex(rest as nat, 0) + digits@.reverse() == digits@.reverse());
    }
    reversed_text(&digits)
}

/// The characters with the Unicode property White_Space.
pub open spec fn is_white(c: char) -> bool {
    let u = c as u32;
    ||| 0x09 <= u <= 0x0d
    ||| u == 0x20
    ||| u == 0x85
    ||| u == 0xa0
    ||| u == 0x1680
    ||| 0x2000 <= u <= 0x200a
    ||| u == 0x2028
    ||| u == 0x2029
    ||| u == 0x202f
    ||| u == 0x205f
    ||| u == 0x3000
}

/// Whether a character is white space.
pub fn white(c: char) -> (r: bool)
    ensures
        r == is_white(c),
{
    let u: u32 = c as u32;
    (0x09 <= u && u <= 0x0d) || u == 0x20 || u == 0x85 || u == 0xa0 || u == 0x1680 || (0x2000 <= u
        && u <= 0x200a) || u == 0x2028 || u == 0x2029 || u == 0x202f || u == 0x205f || u == 0x3000
}

/// A text without its leading white space.
pub open spec fn trim_start(s: Seq<char>) -> Seq<char>
    decreases s.len(),
{
    if s.len() > 0 && is_white(s[0]) {
        trim_start(s.skip(1))
    } else {
        s
    }
}

/// A text without its trailing white space.
pub open spec fn trim_end(s: Seq<char>) -> Seq<char>
    decreases s.len(),
{
    if s.len() > 0 && is_white(s.last()) {
        trim_end(s.drop_last())
    } else {
        s
    }
}

/// A text without its leading and trailing white space.
pub open spec fn trimmed(s: Seq<char>) -> Seq<char> {
    trim_end(trim_start(s))
}

/// A copy of part of a text.
pub fn part(chars: &[char], from: usize, to: usize) -> (r: Vec<char>)
    requires
        from <= to <= chars@.len(),
    ensures
        r@ == chars@.subrange(from as int, to as int),
{
    vstd::slice::slice_to_vec(vstd::slice::slice_subrange(chars, from, to))
}

/// Removes the white space at both ends.
pub fn trim(chars: &[char]) -> (r: Vec<char>)
    ensures
        r@ == trimmed(chars@),
{
    let mut start: usize = 0;
    proof {
        assert(chars@.skip(0) == chars@);
    }
    while start < chars.len() && white(chars[start])
        invariant
            start <= chars@.len(),
            trim_start(chars@) == trim_start(chars@.skip(start as int)),
        decreases chars@.len() - start,
    {
        proof {
            assert(chars@.skip(start as int).skip(1) == chars@.skip(start as int + 1));
        }
        start += 1;
    }
    let ghost head = chars@.skip(start as int);
    proof {
        assert(trim_start(head) == head);
        assert(head == chars@.subrange(start as int, chars@.len() as int));
    }
    let mut end: usize = chars.len();
    while end > start && white(chars[end - 1])
        invariant
            start <= end <= chars@.len(),
            trim_end(head) == trim_end(chars@.subrange(start as int, end as int)),
        decreases end,
    {
        proof {
            assert(chars@.subrange(start as int, end as int).drop_last() == chars@.subrange(
                start as int,
                end as int - 1,
            ));
        }
        end -= 1;
    }
    part(chars, start, end)
}

/// Where a character first occurs; the length where it does not.
pub open spec fn position_of(s: Seq<char>, c: char) -> int
    decreases s.len(),
{
    if s.len() == 0 || s[0] == c {
        0
    } else {
        1 + position_of(s.skip(1), c)
    }
}

/// `position_of` is a bound on the text before which the character is absent.
pub proof fn lemma_position_of(s: Seq<char>, c: char)
    ensures
        0 <= position_of(s, c) <= s.len(),
        position_of(s, c) < s.len() ==> s[position_of(s, c)] == c,
        forall|i: int| 0 <= i < position_of(s, c) ==> s[i] != c,
    decreases s.len(),
{
    if s.len() == 0 || s[0] == c {
    } else {
        lemma_position_of(s.skip(1), c);
        assert forall|i: int| 0 <= i < position_of(s, c) implies s[i] != c by {
            if i > 0 {
                assert(s.skip(1)[i - 1] == s[i]);
            }
        }
    }
}

/// A position at which the character stands, and before which it does not, is
/// its first.
pub proof fn lemma_position_is(s: Seq<char>, c: char, at: int)
    requires
        0 <= at <= s.len(),
        forall|i: int| 0 <= i < at ==> s[i] != c,
        at < s.len() ==> s[at] == c,
    ensures
        position_of(s, c) == at,
{
    lemma_position_of(s, c);
}

/// Finds the first occurrence of a character.
pub fn find(chars: &[char], c: char) -> (at: usize)
    ensures
        at == position_of(chars@, c),
{
    let mut i: usize = 0;
    while i < chars.len() && chars[i] != c
        invariant
            i <= chars@.len(),
            forall|j: int| 0 <= j < i ==> chars@[j] != c,
        decreases chars@.len() - i,
    {
        i += 1;
    }
    proof {
        lemma_position_is(chars@, c, i as int);
    }
    i
}

/// One line without its ending: a carriage return before the line feed goes
/// with it.
pub open spec fn without_carriage_return(s: Seq<char>) -> Seq<char> {
    if s.len() > 0 && s.last() == '\r' {
        s.drop_last()
    } else {
        s
    }
}

/// The lines of a text. A line feed ends a line; what follows the last one is a
/// line of its own unless it is empty, and it keeps a trailing carriage return.
pub open spec fn lines(s: Seq<char>) -> Seq<Seq<char>>
    decreases s.len(),
{
    let at = position_of(s, '\n');
    if s.len() == 0 {
        seq![]
    } else if at < 0 || at >= s.len() {
        seq![s]
    } else {
        seq![without_carriage_return(s.take(at))] + lines(s.skip(at + 1))
    }
}

/// The views of a list of texts.
pub open spec fn texts(v: Seq<Vec<char>>) -> Seq<Seq<char>> {
    v.map_values(|t: Vec<char>| t@)
}

/// Splits a text into its lines.
pub fn split_lines(chars: &[char]) -> (r: Vec<Vec<char>>)
    ensures
        texts(r@) == lines(chars@),
{
    let mut result: Vec<Vec<char>> = Vec::new();
    let mut start: usize = 0;
    proof {
        assert(chars@.skip(0) == chars@);
        assert(texts(result@) + lines(chars@) == lines(chars@));
    }
    while start < chars.len()
        invariant
            start <= chars@.len(),
            lines(chars@) == texts(result@) + lines(chars@.skip(start as int)),
        decreases chars@.len() - start,
    {
        let rest = vstd::slice::slice_subrange(chars, start, chars.len());
        let ghost before = result@;
        proof {
            assert(rest@ == chars@.skip(start as int));
            lemma_position_of(rest@, '\n');
        }
        let at = find(rest, '\n');
        let ghost tail = lines(rest@);
        if at >= rest.len() {
            let line = part(rest, 0, rest.len());
            proof {
                assert(line@ == rest@);
            }
            result.push(line);
            start = chars.len();
            proof {
                assert(lines(chars@.skip(start as int)) == Seq::<Seq<char>>::empty());
                assert(texts(result@) == texts(before).push(rest@));
                assert(texts(result@) + lines(chars@.skip(start as int)) == texts(before) + tail);
            }
        } else {
            let mut end: usize = at;
            if end > 0 && rest[end - 1] == '\r' {
                end -= 1;
            }
            let line = part(rest, 0, end);
            proof {
                assert(line@ == without_carriage_return(rest@.take(at as int)));
            }
            result.push(line);
            proof {
                assert(rest@.skip(at as int + 1) == chars@.skip(start + at + 1));
                assert(texts(result@) == texts(before).push(line@));
                assert(texts(result@) + lines(chars@.skip(start + at + 1)) == texts(before) + tail);
            }
            start = start + at + 1;
        }
    }
    proof {
        assert(texts(result@) + lines(chars@.skip(start as int)) == texts(result@));
    }
    result
}

/// Whether a text begins with another.
pub open spec fn begins_with(s: Seq<char>, prefix: Seq<char>) -> bool {
    prefix.len() <= s.len() && s.take(prefix.len() as int) == prefix
}

/// Whether a text begins with another, from a position on.
pub fn begins_at(chars: &[char], at: usize, prefix: &[char]) -> (r: bool)
    requires
        at <= chars@.len(),
    ensures
        r == begins_with(chars@.skip(at as int), prefix@),
{
    if prefix.len() > chars.len() - at {
        return false;
    }
    let mut i: usize = 0;
    while i < prefix.len()
        invariant
            i <= prefix@.len(),
            at + prefix@.len() <= chars@.len() <= usize::MAX,
            chars@.skip(at as int).take(i as int) == prefix@.take(i as int),
        decreases prefix@.len() - i,
    {
        if chars[at + i] != prefix[i] {
            proof {
                assert(chars@.skip(at as int).take(prefix@.len() as int)[i as int] == chars@[at + i]);
            }
            return false;
        }
        proof {
            assert(chars@.skip(at as int).take(i as int + 1) == chars@.skip(at as int).take(
                i as int,
            ).push(chars@[at + i]));
            assert(prefix@.take(i as int + 1) == prefix@.take(i as int).push(prefix@[i as int]));
        }
        i += 1;
    }
    proof {
        assert(prefix@.take(prefix@.len() as int) == prefix@);
    }
    true
}

/// Replaces every occurrence of a pattern, from left to right, where the
/// occurrences do not overlap.
pub open spec fn replaced(s: Seq<char>, from: Seq<char>, to: Seq<char>) -> Seq<char>
    decreases s.len(),
{
    if s.len() == 0 || from.len() == 0 {
        s
    } else if begins_with(s, from) {
        to + replaced(s.skip(from.len() as int), from, to)
    } else {
        seq![s[0]] + replaced(s.skip(1), from, to)
    }
}

/// Replaces every occurrence of a non-empty pattern.
pub fn replace_all(text: &str, from: &str, to: &str) -> (r: String)
    requires
        from@.len() > 0,
    ensures
        r@ == replaced(text@, from@, to@),
{
    let chars = chars_of(text);
    let pattern = chars_of(from);
    let mut result = String::new();
    let mut i: usize = 0;
    proof {
        assert(chars@.skip(0) == chars@);
        assert(result@ + replaced(text@, from@, to@) == replaced(text@, from@, to@));
    }
    while i < chars.len()
        invariant
            i <= chars@.len(),
            chars@ == text@,
            pattern@ == from@,
            from@.len() > 0,
            replaced(text@, from@, to@) == result@ + replaced(chars@.skip(i as int), from@, to@),
        decreases chars@.len() - i,
    {
        let ghost before = result@;
        let ghost rest = chars@.skip(i as int);
        if begins_at(chars.as_slice(), i, pattern.as_slice()) {
            result.append(to);
            proof {
                assert(rest.skip(from@.len() as int) == chars@.skip(i + from@.len()));
                assert(result@ + replaced(chars@.skip(i + from@.len()), from@, to@) == before + replaced(
                    rest,
                    from@,
                    to@,
                ));
            }
            i += pattern.len();
        } else {
            result.push(chars[i]);
            proof {
                assert(rest.skip(1) == chars@.skip(i + 1));
                assert(result@ + replaced(chars@.skip(i + 1), from@, to@) == before + replaced(
                    rest,
                    from@,
                    to@,
                ));
            }
            i += 1;
        }
    }
    proof {
        assert(result@ + replaced(chars@.skip(i as int), from@, to@) == result@);
    }
    result
}

} // verus!
