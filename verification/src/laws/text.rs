//! What is made of text.

use vstd::prelude::*;

use crate::text::{
    begins_with, decimal, digit_char, hex, is_white, lines, position_of, replaced, trim_end,
    trim_start, trimmed, without_carriage_return,
};

verus! {

/// The number that a digit stands for.
pub open spec fn digit_value(c: char) -> nat {
    if '0' <= c <= '9' {
        (c as nat - '0' as nat) as nat
    } else {
        (c as nat - 'a' as nat + 10) as nat
    }
}

/// The number that digits stand for.
pub open spec fn digits_value(digits: Seq<char>, base: nat) -> nat
    decreases digits.len(),
{
    if digits.len() == 0 {
        0
    } else {
        digits_value(digits.drop_last(), base) * base + digit_value(digits.last())
    }
}

/// A digit is one of `0` to `9`, or beyond those of `a` to `f`, and stands for its number.
pub proof fn law_digit_is_its_number(d: nat)
    requires
        d < 16,
    ensures
        digit_value(digit_char(d)) == d,
        d < 10 <==> '0' <= digit_char(d) <= '9',
        d >= 10 <==> 'a' <= digit_char(d) <= 'f',
{
}

/// A number is written in decimal digits that read back as the number, without zeros in
/// front.
pub proof fn law_decimal_reads_back(n: nat)
    ensures
        decimal(n).len() > 0,
        forall|i: int| 0 <= i < decimal(n).len() ==> '0' <= #[trigger] decimal(n)[i] <= '9',
        digits_value(decimal(n), 10) == n,
        n > 0 ==> decimal(n)[0] != '0',
    decreases n,
{
    if n < 10 {
        law_digit_is_its_number(n);
        assert(decimal(n).drop_last() == Seq::<char>::empty());
        assert(digits_value(Seq::<char>::empty(), 10) == 0);
    } else {
        law_decimal_reads_back(n / 10);
        law_digit_is_its_number(n % 10);
        assert(decimal(n).drop_last() == decimal(n / 10));
        assert(decimal(n)[0] == decimal(n / 10)[0]);
    }
}

/// A number is written in as many hexadecimal digits as asked for.
pub proof fn law_hex_has_its_width(n: nat, width: nat)
    ensures
        hex(n, width).len() == width,
    decreases width,
{
    if width > 0 {
        law_hex_has_its_width(n / 16, (width - 1) as nat);
    }
}

/// A number of sixty-four bits is written in sixteen hexadecimal digits that read back as
/// the number.
pub proof fn law_hex_reads_back(n: u64)
    ensures
        hex(n as nat, 16).len() == 16,
        digits_value(hex(n as nat, 16), 16) == n,
{
    reveal_with_fuel(vstd::arithmetic::power::pow, 17);
    lemma_hex(n as nat, 16);
    assert(vstd::arithmetic::power::pow(16, 16) == 0x1_0000_0000_0000_0000);
    law_hex_has_its_width(n as nat, 16);
}

proof fn lemma_hex(n: nat, width: nat)
    requires
        n < vstd::arithmetic::power::pow(16, width),
    ensures
        digits_value(hex(n, width), 16) == n,
    decreases width,
{
    reveal(vstd::arithmetic::power::pow);
    if width > 0 {
        let less = (width - 1) as nat;
        assert(vstd::arithmetic::power::pow(16, width) == 16 * vstd::arithmetic::power::pow(
            16,
            less,
        ));
        assert(n / 16 < vstd::arithmetic::power::pow(16, less));
        lemma_hex(n / 16, less);
        law_digit_is_its_number(n % 16);
        assert(hex(n, width).drop_last() == hex(n / 16, less));
    }
}

/// White space is what Unicode says it is.
pub proof fn law_white_space(c: char)
    ensures
        is_white(c) <==> {
            ||| c == '\u{9}' || c == '\u{a}' || c == '\u{b}' || c == '\u{c}' || c == '\u{d}'
            ||| c == '\u{20}' || c == '\u{85}' || c == '\u{a0}' || c == '\u{1680}'
            ||| '\u{2000}' <= c <= '\u{200a}'
            ||| c == '\u{2028}' || c == '\u{2029}' || c == '\u{202f}' || c == '\u{205f}'
            ||| c == '\u{3000}'
        },
{
}

/// Trimming takes the white space off both ends, and nothing else: what is left begins and
/// ends with something that is none.
pub proof fn law_trimming_takes_white_space(
    front: Seq<char>,
    middle: Seq<char>,
    back: Seq<char>,
)
    requires
        forall|i: int| 0 <= i < front.len() ==> is_white(#[trigger] front[i]),
        forall|i: int| 0 <= i < back.len() ==> is_white(#[trigger] back[i]),
        middle.len() > 0 ==> !is_white(middle[0]) && !is_white(middle.last()),
    ensures
        trimmed(front + middle + back) == middle,
{
    lemma_trim_start(front, middle + back);
    assert(front + middle + back == front + (middle + back));
    if middle.len() > 0 {
        assert((middle + back)[0] == middle[0]);
        assert(trim_start(middle + back) == middle + back);
        lemma_trim_end(middle, back);
    } else {
        assert(middle + back == back);
        lemma_all_white(back);
        assert(trim_end(trim_start(back)) == middle);
    }
}

proof fn lemma_trim_start(front: Seq<char>, rest: Seq<char>)
    requires
        forall|i: int| 0 <= i < front.len() ==> is_white(#[trigger] front[i]),
    ensures
        trim_start(front + rest) == trim_start(rest),
    decreases front.len(),
{
    if front.len() > 0 {
        assert(is_white(front[0]));
        assert((front + rest)[0] == front[0]);
        assert((front + rest).skip(1) == front.skip(1) + rest);
        assert forall|i: int| 0 <= i < front.skip(1).len() implies is_white(
            #[trigger] front.skip(1)[i],
        ) by {
            assert(is_white(front[i + 1]));
        }
        lemma_trim_start(front.skip(1), rest);
    } else {
        assert(front + rest == rest);
    }
}

proof fn lemma_trim_end(middle: Seq<char>, back: Seq<char>)
    requires
        middle.len() > 0,
        !is_white(middle.last()),
        forall|i: int| 0 <= i < back.len() ==> is_white(#[trigger] back[i]),
    ensures
        trim_end(middle + back) == middle,
    decreases back.len(),
{
    if back.len() > 0 {
        assert(is_white(back[back.len() - 1]));
        assert((middle + back).last() == back[back.len() - 1]);
        assert((middle + back).drop_last() == middle + back.drop_last());
        assert forall|i: int| 0 <= i < back.drop_last().len() implies is_white(
            #[trigger] back.drop_last()[i],
        ) by {
            assert(is_white(back[i]));
        }
        lemma_trim_end(middle, back.drop_last());
    } else {
        assert(middle + back == middle);
    }
}

proof fn lemma_all_white(s: Seq<char>)
    requires
        forall|i: int| 0 <= i < s.len() ==> is_white(#[trigger] s[i]),
    ensures
        trim_start(s) == Seq::<char>::empty(),
        trim_end(Seq::<char>::empty()) == Seq::<char>::empty(),
    decreases s.len(),
{
    if s.len() > 0 {
        assert(is_white(s[0]));
        assert forall|i: int| 0 <= i < s.skip(1).len() implies is_white(#[trigger] s.skip(1)[i]) by {
            assert(is_white(s[i + 1]));
        }
        lemma_all_white(s.skip(1));
    } else {
        assert(s == Seq::<char>::empty());
    }
}

/// A character is found where it first stands, and behind the end where it does not.
pub proof fn law_character_is_found(s: Seq<char>, c: char, at: int)
    requires
        0 <= at <= s.len(),
        forall|i: int| 0 <= i < at ==> #[trigger] s[i] != c,
        at < s.len() ==> s[at] == c,
    ensures
        position_of(s, c) == at,
    decreases s.len(),
{
    if at > 0 {
        assert(s[0] != c);
        let rest = s.skip(1);
        assert forall|i: int| 0 <= i < at - 1 implies #[trigger] rest[i] != c by {
            assert(s[i + 1] != c);
        }
        law_character_is_found(rest, c, at - 1);
    }
}

/// A text comes apart at its line feeds; a carriage return before one goes with it, and
/// nothing stands for the end of the last line.
pub proof fn law_lines_come_apart(line: Seq<char>, rest: Seq<char>)
    requires
        forall|i: int| 0 <= i < line.len() ==> #[trigger] line[i] != '\n',
    ensures
        lines(Seq::<char>::empty()).len() == 0,
        line.len() > 0 ==> lines(line) == seq![line],
        line.len() == 0 || line.last() != '\r' ==> lines(line.push('\n') + rest) == seq![line]
            + lines(rest),
        lines(line.push('\r').push('\n') + rest) == seq![line] + lines(rest),
{
    if line.len() > 0 {
        law_character_is_found(line, '\n', line.len() as int);
    }
    let plain = line.push('\n') + rest;
    assert forall|i: int| 0 <= i < line.len() implies #[trigger] plain[i] != '\n' by {
        assert(line[i] != '\n');
    }
    assert(plain[line.len() as int] == '\n');
    law_character_is_found(plain, '\n', line.len() as int);
    assert(plain.take(line.len() as int) == line);
    assert(plain.skip(line.len() as int + 1) == rest);
    let turned = line.push('\r');
    let with = turned.push('\n') + rest;
    assert forall|i: int| 0 <= i < turned.len() implies #[trigger] with[i] != '\n' by {
        if i < line.len() {
            assert(line[i] != '\n');
        }
    }
    assert(with[turned.len() as int] == '\n');
    law_character_is_found(with, '\n', turned.len() as int);
    assert(with.take(turned.len() as int) == turned);
    assert(with.skip(turned.len() as int + 1) == rest);
    assert(without_carriage_return(turned) == line);
}

/// Replacing goes from the front: what is looked for is replaced where it stands, and a
/// character at which it does not begin stays.
pub proof fn law_replacing_goes_from_the_front(
    from: Seq<char>,
    to: Seq<char>,
    rest: Seq<char>,
    c: char,
)
    requires
        from.len() > 0,
    ensures
        replaced(Seq::<char>::empty(), from, to).len() == 0,
        replaced(from + rest, from, to) == to + replaced(rest, from, to),
        !(exists|tail: Seq<char>| #[trigger] (from + tail) == seq![c] + rest) ==> replaced(
            seq![c] + rest,
            from,
            to,
        ) == seq![c] + replaced(rest, from, to),
{
    assert((from + rest).take(from.len() as int) == from);
    assert((from + rest).skip(from.len() as int) == rest);
    let other = seq![c] + rest;
    assert(other.skip(1) == rest);
    if begins_with(other, from) {
        assert(from + other.skip(from.len() as int) == other);
    }
}

} // verus!
