//! Values that `NSString` reads out of a text, and texts that it builds.
use crate::code_units;
use crate::code_units::{push_units, replace_code_units, slice_units, CompareOptions, NSRange};
use crate::string_encoding;
use crate::string_encoding::strip_prefix;
use crate::text;
use crate::text::{chars_of, is_ascii_digit, is_white_space, parse_digits, push_all, slice_chars};
use vstd::prelude::*;

verus! {

/// The text without white space at its start.
pub open spec fn trimmed_start(chars: Seq<char>) -> Seq<char>
    decreases chars.len(),
{
    if chars.len() > 0 && text::white_space(chars[0]) {
        trimmed_start(chars.drop_first())
    } else {
        chars
    }
}

/// The characters that can be part of a number.
pub open spec fn number_char(c: char, point: bool) -> bool {
    text::ascii_digit(c) || c == '+' || c == '-' || (point && c == '.')
}

/// The characters at the start that can be part of a number.
pub open spec fn number_prefix(chars: Seq<char>, point: bool) -> Seq<char>
    decreases chars.len(),
{
    if chars.len() > 0 && number_char(chars[0], point) {
        seq![chars[0]] + number_prefix(chars.drop_first(), point)
    } else {
        Seq::empty()
    }
}

/// The part of a text that is read as a number.
pub fn leading_number(chars: &Vec<char>, point: bool) -> (part: Vec<char>)
    ensures
        part@ == number_prefix(trimmed_start(chars@), point),
{
    let mut start: usize = 0;
    assert(chars@.skip(0) =~= chars@);
    while start < chars.len() && is_white_space(chars[start])
        invariant
            start <= chars@.len(),
            trimmed_start(chars@.skip(start as int)) == trimmed_start(chars@),
        decreases chars@.len() - start,
    {
        assert(chars@.skip(start as int).drop_first() =~= chars@.skip(start + 1));
        start = start + 1;
    }
    let ghost rest = chars@.skip(start as int);
    let mut out: Vec<char> = Vec::new();
    let mut i: usize = start;
    assert(out@ + number_prefix(chars@.skip(i as int), point) =~= number_prefix(rest, point));
    while i < chars.len() && (is_ascii_digit(chars[i]) || chars[i] == '+' || chars[i] == '-' || (
    point && chars[i] == '.'))
        invariant
            start <= i <= chars@.len(),
            out@ + number_prefix(chars@.skip(i as int), point) == number_prefix(rest, point),
        decreases chars@.len() - i,
    {
        let ghost before = out@;
        assert(chars@.skip(i as int)[0] == chars@[i as int]);
        assert(chars@.skip(i as int).drop_first() =~= chars@.skip(i + 1));
        out.push(chars[i]);
        i = i + 1;
        assert(before + (seq![chars@[i - 1]] + number_prefix(chars@.skip(i as int), point))
            =~= out@ + number_prefix(chars@.skip(i as int), point));
    }
    assert(out@ + Seq::<char>::empty() =~= out@);
    out
}

/// The value of a number with an optional sign; nothing if it has no digits or
/// other characters.
pub open spec fn signed_value(chars: Seq<char>) -> Option<int> {
    let signed = chars.len() > 0 && (chars[0] == '+' || chars[0] == '-');
    let digits = if signed {
        chars.drop_first()
    } else {
        chars
    };
    if digits.len() == 0 || !text::all_digits(digits) {
        None
    } else if signed && chars[0] == '-' {
        Some(-text::digits_value(digits))
    } else {
        Some(text::digits_value(digits))
    }
}

/// A value where it lies in a range, else zero.
pub open spec fn value_or_zero(value: Option<int>, min: int, max: int) -> int {
    match value {
        Some(v) => if min <= v <= max {
            v
        } else {
            0
        },
        None => 0,
    }
}

pub fn are_digits(chars: &Vec<char>) -> (yes: bool)
    ensures
        yes == text::all_digits(chars@),
{
    let mut i: usize = 0;
    while i < chars.len()
        invariant
            i <= chars@.len(),
            forall|j: int| 0 <= j < i ==> text::ascii_digit(#[trigger] chars@[j]),
        decreases chars@.len() - i,
    {
        if !is_ascii_digit(chars[i]) {
            return false;
        }
        i = i + 1;
    }
    true
}

fn parse_signed(chars: &Vec<char>, min: i64, max: i64) -> (v: i64)
    requires
        min <= 0 <= max,
    ensures
        v == value_or_zero(signed_value(chars@), min as int, max as int),
{
    if chars.len() == 0 {
        return 0;
    }
    let signed: bool = chars[0] == '+' || chars[0] == '-';
    let negative: bool = chars[0] == '-';
    let from: usize = if signed {
        1
    } else {
        0
    };
    let digits = slice_chars(chars, from, chars.len());
    proof {
        if signed {
            assert(digits@ =~= chars@.drop_first());
        } else {
            assert(digits@ =~= chars@);
        }
    }
    if digits.len() == 0 {
        return 0;
    }
    if !are_digits(&digits) {
        return 0;
    }
    proof {
        text::lemma_digits_value_monotonic(digits@, 0);
    }
    match parse_digits(&digits) {
        Some(v) => {
            if negative {
                if min <= -v {
                    -v
                } else {
                    0
                }
            } else if v <= max {
                v
            } else {
                0
            }
        },
        None => {
            if negative && min == i64::MIN && is_min_magnitude(&digits) {
                i64::MIN
            } else {
                0
            }
        },
    }
}

/// Whether digits, with leading zeros or without, are the magnitude of the
/// smallest 64-bit number.
fn is_min_magnitude(digits: &Vec<char>) -> (yes: bool)
    requires
        text::all_digits(digits@),
        digits@.len() > 0,
        text::digits_value(digits@) > i64::MAX,
    ensures
        yes == (text::digits_value(digits@) == 0x8000_0000_0000_0000),
{
    let last: usize = digits.len() - 1;
    let front = slice_chars(digits, 0, last);
    proof {
        assert(front@ =~= digits@.drop_last());
        assert forall|i: int| 0 <= i < front@.len() implies text::ascii_digit(
            #[trigger] front@[i],
        ) by {
            assert(text::ascii_digit(digits@[i]));
        }
        assert(text::ascii_digit(digits@[last as int]));
    }
    match parse_digits(&front) {
        Some(v) => v == 922_337_203_685_477_580 && digits[last] == '8',
        None => false,
    }
}

/// The 32-bit number at the start of a text; zero if there is none that fits.
pub fn int_value(string: &str) -> (v: i32)
    ensures
        v == value_or_zero(
            signed_value(number_prefix(trimmed_start(string@), false)),
            i32::MIN as int,
            i32::MAX as int,
        ),
{
    let part = leading_number(&chars_of(string), false);
    parse_signed(&part, i32::MIN as i64, i32::MAX as i64) as i32
}

/// The 64-bit number at the start of a text; zero if there is none that fits.
pub fn long_long_value(string: &str) -> (v: i64)
    ensures
        v == value_or_zero(
            signed_value(number_prefix(trimmed_start(string@), false)),
            i64::MIN as int,
            i64::MAX as int,
        ),
{
    let part = leading_number(&chars_of(string), false);
    parse_signed(&part, i64::MIN, i64::MAX)
}

pub open spec fn skipped_by_bool(c: char) -> bool {
    c == ' ' || c == '\t' || c == '\n' || c == '\u{c}' || c == '\r' || c == '-' || c == '+' || c
        == '0'
}

/// The first character that decides a truth value.
pub open spec fn deciding_char(chars: Seq<char>) -> Option<char>
    decreases chars.len(),
{
    if chars.len() == 0 {
        None
    } else if skipped_by_bool(chars[0]) {
        deciding_char(chars.drop_first())
    } else {
        Some(chars[0])
    }
}

pub open spec fn means_true(c: char) -> bool {
    c == 'Y' || c == 'y' || c == 'T' || c == 't' || ('1' <= c <= '9')
}

/// The truth value of a text: whether, behind white space, signs and zeros,
/// there is a letter of "yes" or "true" or another digit.
pub fn bool_value(string: &str) -> (v: bool)
    ensures
        v == (deciding_char(string@) matches Some(c) && means_true(c)),
{
    let chars = chars_of(string);
    let mut i: usize = 0;
    assert(chars@.skip(0) =~= chars@);
    while i < chars.len()
        invariant
            i <= chars@.len(),
            chars@ == string@,
            deciding_char(chars@.skip(i as int)) == deciding_char(chars@),
        decreases chars@.len() - i,
    {
        let c: char = chars[i];
        assert(chars@.skip(i as int)[0] == c);
        assert(chars@.skip(i as int).drop_first() =~= chars@.skip(i + 1));
        if !(c == ' ' || c == '\t' || c == '\n' || c == '\u{c}' || c == '\r' || c == '-' || c == '+'
            || c == '0') {
            return c == 'Y' || c == 'y' || c == 'T' || c == 't' || ('1' <= c && c <= '9');
        }
        i = i + 1;
    }
    false
}

/// The bytes that are not escaped in a URL.
pub open spec fn kept_byte(b: u8) -> bool {
    ||| 48 <= b <= 57
    ||| 65 <= b <= 90
    ||| 97 <= b <= 122
    ||| b == 45 || b == 95 || b == 46 || b == 126
    ||| b == 33 || 39 <= b <= 42
    ||| b == 59 || b == 58 || b == 64 || b == 38 || b == 61 || b == 43 || b == 36 || b == 44
    ||| b == 47 || b == 63 || b == 37 || b == 35
}

pub open spec fn hex_digit(d: int) -> char {
    if d < 10 {
        (48 + d) as char
    } else {
        (55 + d) as char
    }
}

pub open spec fn escaped_byte(b: u8) -> Seq<char> {
    if kept_byte(b) {
        seq![b as char]
    } else {
        seq!['%', hex_digit(b as int / 16), hex_digit(b as int % 16)]
    }
}

/// Bytes as a text in which those that are not kept are escaped.
pub open spec fn escaped(bytes: Seq<u8>) -> Seq<char>
    decreases bytes.len(),
{
    if bytes.len() == 0 {
        Seq::empty()
    } else {
        escaped(bytes.drop_last()) + escaped_byte(bytes.last())
    }
}

fn hex_char(d: u8) -> (c: char)
    requires
        d < 16,
    ensures
        c == hex_digit(d as int),
{
    if d < 10 {
        (48 + d) as char
    } else {
        (55 + d) as char
    }
}

fn is_kept(b: u8) -> (kept: bool)
    ensures
        kept == kept_byte(b),
{
    (48 <= b && b <= 57) || (65 <= b && b <= 90) || (97 <= b && b <= 122) || b == 45 || b == 95 || b
        == 46 || b == 126 || b == 33 || (39 <= b && b <= 42) || b == 59 || b == 58 || b == 64 || b
        == 38 || b == 61 || b == 43 || b == 36 || b == 44 || b == 47 || b == 63 || b == 37 || b
        == 35
}

/// Whether none of the bytes needs an escape.
pub fn all_kept(bytes: &Vec<u8>) -> (kept: bool)
    ensures
        kept == (forall|i: int| 0 <= i < bytes@.len() ==> kept_byte(#[trigger] bytes@[i])),
{
    let mut i: usize = 0;
    while i < bytes.len()
        invariant
            i <= bytes@.len(),
            forall|j: int| 0 <= j < i ==> kept_byte(#[trigger] bytes@[j]),
        decreases bytes@.len() - i,
    {
        if !is_kept(bytes[i]) {
            return false;
        }
        i = i + 1;
    }
    true
}

/// Escapes encoded bytes for a URL.
pub fn add_percent_escapes(bytes: &Vec<u8>) -> (string: String)
    ensures
        string@ == escaped(bytes@),
{
    let mut out = String::new();
    let mut i: usize = 0;
    while i < bytes.len()
        invariant
            i <= bytes@.len(),
            out@ == escaped(bytes@.take(i as int)),
        decreases bytes@.len() - i,
    {
        let ghost before = out@;
        let b: u8 = bytes[i];
        assert(bytes@.take(i + 1).drop_last() =~= bytes@.take(i as int));
        if is_kept(b) {
            out.push(b as char);
            assert(out@ =~= before + seq![b as char]);
        } else {
            out.push('%');
            out.push(hex_char(b / 16));
            out.push(hex_char(b % 16));
            assert(out@ =~= before + escaped_byte(b));
        }
        i = i + 1;
    }
    assert(bytes@.take(i as int) =~= bytes@);
    out
}

/// Bytes that need no escape are left as they are.
pub proof fn law_no_escape_needed(bytes: Seq<u8>)
    requires
        forall|i: int| 0 <= i < bytes.len() ==> kept_byte(#[trigger] bytes[i]),
    ensures
        escaped(bytes) == string_encoding::latin1_chars(bytes),
    decreases bytes.len(),
{
    if bytes.len() > 0 {
        assert(kept_byte(bytes[bytes.len() - 1]));
        law_no_escape_needed(bytes.drop_last());
        assert(string_encoding::latin1_chars(bytes) =~= string_encoding::latin1_chars(
            bytes.drop_last(),
        ) + seq![bytes.last() as char]);
    } else {
        assert(escaped(bytes) =~= string_encoding::latin1_chars(bytes));
    }
}

/// The units before an index; all of them if there are not more.
pub fn substring_to_index(units: &Vec<u16>, to: u32) -> (part: Vec<u16>)
    ensures
        part@ == units@.take(
            if to < units@.len() {
                to as int
            } else {
                units@.len() as int
            },
        ),
{
    let end: usize = if (to as usize) < units.len() {
        to as usize
    } else {
        units.len()
    };
    let part = slice_units(units.as_slice(), 0, end);
    assert(part@ =~= units@.take(end as int));
    part
}

/// The units from an index on; none if there are not as many.
pub fn substring_from_index(units: &Vec<u16>, from: u32) -> (part: Vec<u16>)
    ensures
        part@ == units@.skip(
            if from < units@.len() {
                from as int
            } else {
                units@.len() as int
            },
        ),
{
    let start: usize = if (from as usize) < units.len() {
        from as usize
    } else {
        units.len()
    };
    let part = slice_units(units.as_slice(), start, units.len());
    assert(part@ =~= units@.skip(start as int));
    part
}

/// The units of a range.
pub fn substring_with_range(units: &Vec<u16>, range: NSRange) -> (part: Vec<u16>)
    requires
        range.location + range.length <= units@.len(),
        range.location + range.length <= u32::MAX,
    ensures
        part@ == units@.subrange(range.location as int, range.location + range.length),
{
    slice_units(
        units.as_slice(),
        range.location as usize,
        (range.location + range.length) as usize,
    )
}

/// Replaces matches within a range, which is cut off at the end of the string;
/// the new string and the number of replacements.
pub fn replace_occurrences_in_range(
    whole: &Vec<u16>,
    target: &Vec<u16>,
    replacement: &Vec<u16>,
    opts: CompareOptions,
    range: NSRange,
) -> (r: (Vec<u16>, usize))
    ensures
        ({
            let (start, end) = code_units::clipped(
                whole@.len() as int,
                range.location as int,
                range.length as int,
            );
            let middle = whole@.subrange(start, end);
            let found = code_units::matches_to_replace(middle, target@, opts);
            &&& r.1 == found.len()
            &&& r.0@ == whole@.take(start) + code_units::replaced_from(
                middle,
                found,
                0,
                target@.len() as int,
                replacement@,
            ) + whole@.skip(end)
        }),
{
    let len: usize = whole.len();
    let location: usize = range.location as usize;
    let length: usize = range.length as usize;
    let start: usize = if location < len {
        location
    } else {
        len
    };
    let end: usize = if length < len - start {
        start + length
    } else {
        len
    };
    let part = slice_units(whole.as_slice(), start, end);
    let (middle, count): (Vec<u16>, usize) = replace_code_units(
        part.as_slice(),
        target.as_slice(),
        replacement.as_slice(),
        opts,
    );
    let mut out: Vec<u16> = Vec::new();
    push_units(&mut out, whole.as_slice(), 0, start);
    push_units(&mut out, middle.as_slice(), 0, middle.len());
    push_units(&mut out, whole.as_slice(), end, len);
    assert(out@ =~= whole@.take(start as int) + middle@ + whole@.skip(end as int));
    (out, count)
}

/// The parts of a string between separators.
pub open spec fn components(units: Seq<u16>, separator: Seq<u16>, current: Seq<u16>) -> Seq<
    Seq<u16>,
>
    decreases units.len(),
{
    if separator.len() > 0 && code_units::units_at(units, separator, 0, false) {
        seq![current] + components(
            units.skip(separator.len() as int),
            separator,
            Seq::empty(),
        )
    } else if units.len() > 0 {
        components(units.drop_first(), separator, current.push(units[0]))
    } else {
        seq![current]
    }
}

pub open spec fn unit_views(parts: Seq<Vec<u16>>) -> Seq<Seq<u16>> {
    Seq::new(parts.len(), |i: int| parts[i]@)
}

/// Splits a string at a separator.
pub fn components_separated_by_string(units: &Vec<u16>, separator: &Vec<u16>) -> (parts: Vec<
    Vec<u16>,
>)
    requires
        separator@.len() > 0,
    ensures
        unit_views(parts@) == components(units@, separator@, Seq::empty()),
{
    let mut parts: Vec<Vec<u16>> = Vec::new();
    let mut current: Vec<u16> = Vec::new();
    let mut rest = slice_units(units.as_slice(), 0, units.len());
    assert(rest@ =~= units@);
    assert(unit_views(parts@) + components(rest@, separator@, current@) =~= components(
        units@,
        separator@,
        Seq::empty(),
    ));
    loop
        invariant
            separator@.len() > 0,
            unit_views(parts@) + components(rest@, separator@, current@) == components(
                units@,
                separator@,
                Seq::empty(),
            ),
        ensures
            rest@.len() == 0,
            !code_units::units_at(rest@, separator@, 0, false),
            unit_views(parts@) + components(rest@, separator@, current@) == components(
                units@,
                separator@,
                Seq::empty(),
            ),
        decreases rest@.len(),
    {
        match strip_prefix(&rest, separator, false) {
            Some(behind) => {
                let ghost before = unit_views(parts@);
                let ghost part = current@;
                let ghost tail = components(behind@, separator@, Seq::empty());
                parts.push(current);
                assert(unit_views(parts@) =~= before.push(part));
                assert(before + (seq![part] + tail) =~= unit_views(parts@) + tail);
                current = Vec::new();
                assert(current@ =~= Seq::empty());
                rest = behind;
            },
            None => {
                if rest.len() == 0 {
                    break;
                }
                current.push(rest[0]);
                let behind = slice_units(rest.as_slice(), 1, rest.len());
                assert(behind@ =~= rest@.drop_first());
                rest = behind;
            },
        }
    }
    let ghost before = unit_views(parts@);
    let ghost part = current@;
    parts.push(current);
    assert(unit_views(parts@) =~= before + seq![part]);
    parts
}

/// Joins the parts of a string with a separator.
pub open spec fn joined(parts: Seq<Seq<u16>>, separator: Seq<u16>) -> Seq<u16>
    decreases parts.len(),
{
    if parts.len() == 0 {
        Seq::empty()
    } else if parts.len() == 1 {
        parts[0]
    } else {
        parts[0] + separator + joined(parts.drop_first(), separator)
    }
}

/// Joining the components of a string with the separator gives the string
/// back, and none of them is lost: there is always at least one.
pub proof fn law_components_join(units: Seq<u16>, separator: Seq<u16>, current: Seq<u16>)
    requires
        separator.len() > 0,
    ensures
        joined(components(units, separator, current), separator) == current + units,
        components(units, separator, current).len() >= 1,
    decreases units.len(),
{
    if code_units::units_at(units, separator, 0, false) {
        let rest = units.skip(separator.len() as int);
        law_components_join(rest, separator, Seq::empty());
        let tail = components(rest, separator, Seq::empty());
        let all = seq![current] + tail;
        assert(all.drop_first() =~= tail);
        assert(units.take(separator.len() as int) =~= separator) by {
            assert forall|k: int| 0 <= k < separator.len() implies units[k] == separator[k] by {
                assert(code_units::same_unit(units[0 + k], separator[k], false));
            }
        }
        assert(units =~= separator + rest) by {
            assert(units =~= units.take(separator.len() as int) + rest);
        }
        assert(current + separator + (Seq::<u16>::empty() + rest) =~= current + units);
    } else if units.len() > 0 {
        law_components_join(units.drop_first(), separator, current.push(units[0]));
        assert(current.push(units[0]) + units.drop_first() =~= current + units);
    } else {
        assert(current + units =~= current);
    }
}

/// The parts of a string between units that are members of a set.
pub open spec fn split_parts(units: Seq<u16>, member: Seq<bool>) -> Seq<Seq<u16>>
    decreases units.len(),
{
    if units.len() == 0 {
        seq![Seq::empty()]
    } else {
        let before = split_parts(units.drop_last(), member.drop_last());
        if member.last() {
            before.push(Seq::empty())
        } else {
            before.drop_last().push(before.last().push(units.last()))
        }
    }
}

/// Splits a string at the units that are members of a set; `member` tells for
/// each unit whether it is.
pub fn split_units(units: &Vec<u16>, member: &Vec<bool>) -> (parts: Vec<Vec<u16>>)
    requires
        member@.len() == units@.len(),
    ensures
        unit_views(parts@) == split_parts(units@, member@),
        parts@.len() >= 1,
{
    let mut parts: Vec<Vec<u16>> = Vec::new();
    let mut current: Vec<u16> = Vec::new();
    let mut i: usize = 0;
    assert(unit_views(parts@).push(current@) =~= split_parts(units@.take(0), member@.take(0)));
    while i < units.len()
        invariant
            i <= units@.len(),
            member@.len() == units@.len(),
            unit_views(parts@).push(current@) == split_parts(
                units@.take(i as int),
                member@.take(i as int),
            ),
        decreases units@.len() - i,
    {
        let ghost before = unit_views(parts@);
        let ghost part = current@;
        proof {
            assert(units@.take(i + 1).drop_last() =~= units@.take(i as int));
            assert(member@.take(i + 1).drop_last() =~= member@.take(i as int));
            assert(before.push(part).drop_last() =~= before);
        }
        if member[i] {
            parts.push(current);
            assert(unit_views(parts@) =~= before.push(part));
            current = Vec::new();
            assert(current@ =~= Seq::empty());
        } else {
            current.push(units[i]);
        }
        i = i + 1;
        assert(unit_views(parts@).push(current@) =~= split_parts(
            units@.take(i as int),
            member@.take(i as int),
        ));
    }
    let ghost before = unit_views(parts@);
    let ghost part = current@;
    parts.push(current);
    proof {
        assert(unit_views(parts@) =~= before.push(part));
        assert(units@.take(i as int) =~= units@);
        assert(member@.take(i as int) =~= member@);
    }
    parts
}

/// How many members there are at the start.
pub open spec fn leading_members(member: Seq<bool>) -> int
    decreases member.len(),
{
    if member.len() > 0 && member[0] {
        1 + leading_members(member.drop_first())
    } else {
        0
    }
}

/// Where the part starts and ends that is left when members of a set are trimmed
/// from both ends.
pub open spec fn trimmed_ends(member: Seq<bool>) -> (int, int) {
    let start = leading_members(member);
    if start >= member.len() {
        (member.len() as int, member.len() as int)
    } else {
        (start, member.len() - leading_members(member.reverse()))
    }
}

proof fn lemma_leading_members(member: Seq<bool>, n: int)
    requires
        0 <= n <= member.len(),
        forall|i: int| 0 <= i < n ==> #[trigger] member[i],
        n < member.len() ==> !member[n],
    ensures
        leading_members(member) == n,
    decreases member.len(),
{
    if n > 0 {
        assert(member[0]);
        assert forall|i: int| 0 <= i < n - 1 implies #[trigger] member.drop_first()[i] by {
            assert(member[i + 1]);
        }
        lemma_leading_members(member.drop_first(), n - 1);
    }
}

/// The range that is left when members of a set are trimmed from both ends;
/// `member` tells for each unit whether it is in the set.
pub fn trimmed_range(member: &Vec<bool>) -> (r: (usize, usize))
    ensures
        0 <= r.0 <= r.1 <= member@.len(),
        (r.0 as int, r.1 as int) == trimmed_ends(member@),
{
    let len: usize = member.len();
    let mut start: usize = 0;
    while start < len && member[start]
        invariant
            start <= len,
            len == member@.len(),
            forall|i: int| 0 <= i < start ==> #[trigger] member@[i],
        decreases len - start,
    {
        start = start + 1;
    }
    let mut end: usize = len;
    while end > start && member[end - 1]
        invariant
            start <= end <= len,
            len == member@.len(),
            start < len ==> start < end,
            start < len ==> !member@[start as int],
            forall|i: int| end <= i < len ==> #[trigger] member@[i],
        decreases end - start,
    {
        end = end - 1;
    }
    proof {
        lemma_leading_members(member@, start as int);
        if start < len {
            let back = member@.reverse();
            assert forall|i: int| 0 <= i < len - end implies #[trigger] back[i] by {
                assert(member@[len - 1 - i]);
            }
            lemma_leading_members(back, len - end);
        }
    }
    (start, end)
}

/// Whether a path starts at the root or at a home directory.
pub fn is_absolute_path(path: &str) -> (absolute: bool)
    ensures
        absolute == (path@.len() > 0 && (path@[0] == '/' || path@[0] == '~')),
{
    let chars = chars_of(path);
    chars.len() > 0 && (chars[0] == '/' || chars[0] == '~')
}

/// A path with an extension.
pub open spec fn with_extension(path: Seq<char>, extension: Seq<char>) -> Seq<char> {
    if extension.len() == 0 {
        path
    } else {
        path + seq!['.'] + extension
    }
}

/// A path with an extension; an empty extension changes nothing.
pub fn append_path_extension(path: &str, extension: &str) -> (combined: String)
    ensures
        combined@ == if extension@.len() == 0 {
            path@
        } else {
            path@ + seq!['.'] + extension@
        },
        combined@ == with_extension(path@, extension@),
{
    let mut chars = chars_of(path);
    let more = chars_of(extension);
    if more.len() > 0 {
        chars.push('.');
        push_all(&mut chars, &more);
        assert(chars@ =~= path@ + seq!['.'] + extension@);
    }
    text::string_of(&chars)
}

/// The part of a path behind the home directory that a tilde stands for;
/// nothing if there is no tilde.
pub open spec fn within_home(path: Seq<char>) -> Option<Seq<char>> {
    if path.len() > 0 && path[0] == '~' {
        if path.contains('/') {
            Some(path.skip(path.index_of_first('/')->0 + 1))
        } else {
            Some(Seq::empty())
        }
    } else {
        None
    }
}

pub fn path_within_home(path: &str) -> (rest: Option<String>)
    ensures
        match rest {
            Some(r) => within_home(path@) == Some(r@),
            None => within_home(path@) is None,
        },
{
    let chars = chars_of(path);
    if chars.len() == 0 || chars[0] != '~' {
        return None;
    }
    let mut i: usize = 0;
    while i < chars.len()
        invariant
            i <= chars@.len(),
            chars@ == path@,
            path@.len() > 0,
            path@[0] == '~',
            forall|j: int| 0 <= j < i ==> #[trigger] path@[j] != '/',
        decreases chars@.len() - i,
    {
        if chars[i] == '/' {
            proof {
                assert(path@.contains('/'));
                path@.index_of_first_ensures('/');
                let k = path@.index_of_first('/')->0;
                assert(k == i as int) by {
                    if k < i {
                        assert(path@[k] != '/');
                    }
                }
            }
            let rest = slice_chars(&chars, i + 1, chars.len());
            assert(rest@ =~= path@.skip(i + 1));
            return Some(text::string_of(&rest));
        }
        i = i + 1;
    }
    Some(String::new())
}

/// The encoding that the start of a file suggests.
pub open spec fn suggested_encoding(bytes: Seq<u8>) -> u32 {
    if bytes.len() > 1 && ((bytes[0] == 0xfe && bytes[1] == 0xff) || (bytes[0] == 0xff && bytes[1]
        == 0xfe)) {
        string_encoding::NSUTF16StringEncoding
    } else {
        string_encoding::NSUTF8StringEncoding
    }
}

/// The encoding that the start of a file suggests.
pub fn sniff_encoding(bytes: &Vec<u8>) -> (encoding: u32)
    ensures
        encoding == if bytes@.len() > 1 && ((bytes@[0] == 0xfe && bytes@[1] == 0xff) || (bytes@[0]
            == 0xff && bytes@[1] == 0xfe)) {
            string_encoding::NSUTF16StringEncoding
        } else {
            string_encoding::NSUTF8StringEncoding
        },
        encoding == suggested_encoding(bytes@),
{
    if bytes.len() > 1 && ((bytes[0] == 0xfe && bytes[1] == 0xff) || (bytes[0] == 0xff && bytes[1]
        == 0xfe)) {
        string_encoding::NSUTF16StringEncoding
    } else {
        string_encoding::NSUTF8StringEncoding
    }
}

/// White space is dropped up to the first other character.
pub proof fn law_trimmed_start(space: Seq<char>, rest: Seq<char>)
    requires
        forall|i: int| 0 <= i < space.len() ==> text::white_space(#[trigger] space[i]),
        rest.len() > 0 ==> !text::white_space(rest[0]),
    ensures
        trimmed_start(space + rest) == rest,
    decreases space.len(),
{
    if space.len() > 0 {
        assert((space + rest)[0] == space[0]);
        assert((space + rest).drop_first() =~= space.drop_first() + rest);
        law_trimmed_start(space.drop_first(), rest);
    } else {
        assert(space + rest =~= rest);
    }
}

/// A number is read up to the first character that is neither a digit nor a sign, nor a
/// point where one may occur.
pub proof fn law_number_prefix(number: Seq<char>, rest: Seq<char>, point: bool)
    requires
        forall|i: int|
            0 <= i < number.len() ==> (('0' <= #[trigger] number[i] <= '9') || number[i] == '+'
                || number[i] == '-' || (point && number[i] == '.')),
        rest.len() > 0 ==> !('0' <= rest[0] <= '9') && rest[0] != '+' && rest[0] != '-' && !(point
            && rest[0] == '.'),
    ensures
        number_prefix(number + rest, point) == number,
    decreases number.len(),
{
    if number.len() > 0 {
        assert((number + rest)[0] == number[0]);
        assert((number + rest).drop_first() =~= number.drop_first() + rest);
        law_number_prefix(number.drop_first(), rest, point);
        assert(seq![number[0]] + number.drop_first() =~= number);
    } else {
        assert(number + rest =~= rest);
        assert(number =~= Seq::empty());
    }
}

/// Digits have their value, with a minus sign before them the negative of it, and with
/// anything else among them, or with none of them, no value at all. A value out of the
/// range is taken for zero.
pub proof fn law_signed_value(digits: Seq<char>, i: int, min: int, max: int)
    ensures
        text::all_digits(digits) && digits.len() > 0 ==> signed_value(digits) == Some(
            text::digits_value(digits),
        ) && signed_value(seq!['+'] + digits) == Some(text::digits_value(digits)) && signed_value(
            seq!['-'] + digits,
        ) == Some(-text::digits_value(digits)),
        0 < i < digits.len() && !('0' <= digits[i] <= '9') ==> signed_value(digits) is None,
        signed_value(Seq::empty()) is None && signed_value(seq!['-']) is None && signed_value(
            seq!['+'],
        ) is None,
        value_or_zero(None, min, max) == 0,
        min <= i <= max ==> value_or_zero(Some(i), min, max) == i,
        i < min || i > max ==> value_or_zero(Some(i), min, max) == 0,
{
    if text::all_digits(digits) && digits.len() > 0 {
        assert(text::ascii_digit(digits[0]));
        assert((seq!['+'] + digits).drop_first() =~= digits);
        assert((seq!['-'] + digits).drop_first() =~= digits);
    }
    if 0 < i < digits.len() && !('0' <= digits[i] <= '9') {
        assert(!text::ascii_digit(digits[i]));
        assert(!text::ascii_digit(digits.drop_first()[i - 1]));
    }
}

/// The truth of a text is that of its first character behind white space, signs and
/// zeros: true for a digit from one and for the first letter of a yes or of true.
pub proof fn law_truth(skipped: Seq<char>, c: char, rest: Seq<char>)
    requires
        forall|i: int|
            0 <= i < skipped.len() ==> (#[trigger] skipped[i] == '0' || skipped[i] == '+'
                || skipped[i] == '-' || skipped[i] == ' ' || skipped[i] == '\t' || skipped[i]
                == '\n' || skipped[i] == '\r' || skipped[i] == '\u{c}'),
        c != '0' && c != '+' && c != '-' && c != ' ' && c != '\t' && c != '\n' && c != '\r' && c
            != '\u{c}',
    ensures
        deciding_char(skipped) is None,
        deciding_char(skipped + seq![c] + rest) == Some(c),
        means_true(c) <==> c == 'y' || c == 'Y' || c == 't' || c == 'T' || (text::ascii_digit(c)
            && c != '0'),
    decreases skipped.len(),
{
    let whole = skipped + seq![c] + rest;
    if skipped.len() > 0 {
        assert(whole[0] == skipped[0]);
        assert(whole.drop_first() =~= skipped.drop_first() + seq![c] + rest);
        law_truth(skipped.drop_first(), c, rest);
    } else {
        assert(whole[0] == c);
    }
}

/// A byte stands for itself but for white space, controls, the delimiters that an address
/// may not hold, and what is not ASCII. Such a byte becomes a percent sign and its two
/// hexadecimal digits.
pub proof fn law_escaped_byte(b: u8)
    ensures
        kept_byte(b) <==> !(b <= 32 || b == 34 || b == 60 || b == 62 || 91 <= b <= 94 || b == 96
            || 123 <= b <= 125 || b >= 127),
        kept_byte(b) ==> escaped_byte(b) == seq![b as char],
        !kept_byte(b) ==> {
            let e = escaped_byte(b);
            &&& e.len() == 3
            &&& e[0] == '%'
            &&& ('0' <= e[1] <= '9') || ('A' <= e[1] <= 'F')
            &&& ('0' <= e[2] <= '9') || ('A' <= e[2] <= 'F')
            &&& crate::http::hex_number(e.drop_first()) == Some(b as int)
        },
{
    if !kept_byte(b) {
        let e = escaped_byte(b);
        assert(e.drop_first() =~= seq![e[1], e[2]]);
        assert(seq![e[1], e[2]].drop_last() =~= seq![e[1]]);
        assert(seq![e[1]].drop_last() =~= Seq::<char>::empty());
        reveal_with_fuel(crate::http::hex_number, 3);
    }
}

/// Bytes are escaped one by one.
pub proof fn law_escaped_parts(a: Seq<u8>, b: Seq<u8>)
    ensures
        escaped(a + b) == escaped(a) + escaped(b),
        escaped(Seq::empty()) == Seq::<char>::empty(),
    decreases b.len(),
{
    if b.len() == 0 {
        assert(a + b =~= a);
        assert(escaped(a) + Seq::<char>::empty() =~= escaped(a));
    } else {
        assert((a + b).drop_last() =~= a + b.drop_last());
        law_escaped_parts(a, b.drop_last());
        assert(escaped(a) + (escaped(b.drop_last()) + escaped_byte(b.last())) =~= escaped(a)
            + escaped(b.drop_last()) + escaped_byte(b.last()));
    }
}

/// Whether some units stand at a position.
pub open spec fn stands(units: Seq<u16>, part: Seq<u16>, at: int) -> bool {
    0 <= at && at + part.len() <= units.len() && units.subrange(at, at + part.len()) == part
}

/// Text up to the first separator is the first component, and the components of what
/// follows it are the others; text without a separator is one component.
pub proof fn law_components(part: Seq<u16>, separator: Seq<u16>, rest: Seq<u16>, current: Seq<u16>)
    requires
        separator.len() > 0,
        forall|i: int| i < part.len() ==> !#[trigger] stands(part + separator + rest, separator, i),
    ensures
        components(part + separator + rest, separator, current) == seq![current + part]
            + components(rest, separator, Seq::empty()),
        components(part, separator, current) == seq![current + part],
{
    lemma_first_component(part, separator, rest, current);
    let whole = part + separator + rest;
    assert forall|i: int| i < part.len() implies !#[trigger] stands(part, separator, i) by {
        if stands(part, separator, i) {
            assert(whole.subrange(i, i + separator.len()) =~= part.subrange(
                i,
                i + separator.len(),
            ));
            assert(stands(whole, separator, i));
        }
    }
    lemma_only_component(part, separator, current);
}

proof fn lemma_first_component(
    part: Seq<u16>,
    separator: Seq<u16>,
    rest: Seq<u16>,
    current: Seq<u16>,
)
    requires
        separator.len() > 0,
        forall|i: int| i < part.len() ==> !#[trigger] stands(part + separator + rest, separator, i),
    ensures
        components(part + separator + rest, separator, current) == seq![current + part]
            + components(rest, separator, Seq::empty()),
    decreases part.len(),
{
    let whole = part + separator + rest;
    code_units::law_occurrence(whole, separator, 0, false);
    if part.len() == 0 {
        assert(whole.subrange(0, separator.len() as int) =~= separator);
        assert(whole.skip(separator.len() as int) =~= rest);
        assert(current + part =~= current);
    } else {
        assert(!stands(whole, separator, 0));
        let next = part.drop_first();
        let below = next + separator + rest;
        assert(whole.drop_first() =~= below);
        assert forall|i: int| i < next.len() implies !#[trigger] stands(below, separator, i) by {
            if stands(below, separator, i) {
                assert(whole.subrange(i + 1, i + 1 + separator.len()) =~= below.subrange(
                    i,
                    i + separator.len(),
                ));
                assert(stands(whole, separator, i + 1));
            }
        }
        lemma_first_component(next, separator, rest, current.push(part[0]));
        assert(whole[0] == part[0]);
        assert(current.push(part[0]) + next =~= current + part);
    }
}

proof fn lemma_only_component(part: Seq<u16>, separator: Seq<u16>, current: Seq<u16>)
    requires
        separator.len() > 0,
        forall|i: int| i < part.len() ==> !#[trigger] stands(part, separator, i),
    ensures
        components(part, separator, current) == seq![current + part],
    decreases part.len(),
{
    code_units::law_occurrence(part, separator, 0, false);
    if part.len() == 0 {
        assert(current + part =~= current);
    } else {
        assert(!stands(part, separator, 0));
        let next = part.drop_first();
        assert forall|i: int| i < next.len() implies !#[trigger] stands(next, separator, i) by {
            if stands(next, separator, i) {
                assert(part.subrange(i + 1, i + 1 + separator.len()) =~= next.subrange(
                    i,
                    i + separator.len(),
                ));
                assert(stands(part, separator, i + 1));
            }
        }
        lemma_only_component(next, separator, current.push(part[0]));
        assert(current.push(part[0]) + next =~= current + part);
    }
}

/// Text before the first unit of a set is the first part, and the parts of what follows it
/// are the others; that unit belongs to none.
pub proof fn law_split_parts(
    part: Seq<u16>,
    unit: u16,
    rest: Seq<u16>,
    outside: Seq<bool>,
    rest_member: Seq<bool>,
)
    requires
        outside.len() == part.len(),
        forall|i: int| 0 <= i < outside.len() ==> !#[trigger] outside[i],
        rest_member.len() == rest.len(),
    ensures
        split_parts(part.push(unit) + rest, outside.push(true) + rest_member) == seq![part]
            + split_parts(rest, rest_member),
        split_parts(part, outside) == seq![part],
        split_parts(rest, rest_member).len() > 0,
    decreases rest.len(), part.len(),
{
    let units = part.push(unit) + rest;
    let member = outside.push(true) + rest_member;
    if part.len() > 0 {
        assert forall|i: int| 0 <= i < outside.drop_last().len() implies !#[trigger] outside.drop_last()[i] by {
            assert(!outside[i]);
        }
        law_split_parts(
            part.drop_last(),
            unit,
            Seq::empty(),
            outside.drop_last(),
            Seq::empty(),
        );
        assert(!outside[outside.len() - 1]);
        let before = split_parts(part.drop_last(), outside.drop_last());
        assert(before.drop_last() =~= Seq::<Seq<u16>>::empty());
        assert(part.drop_last().push(part.last()) =~= part);
        assert(split_parts(part, outside) =~= seq![part]);
    } else {
        assert(part =~= Seq::empty());
        assert(split_parts(part, outside) =~= seq![part]);
    }
    if rest.len() == 0 {
        assert(units =~= part.push(unit));
        assert(member =~= outside.push(true));
        assert(units.drop_last() =~= part);
        assert(member.drop_last() =~= outside);
        assert(seq![part].push(Seq::empty()) =~= seq![part] + seq![Seq::<u16>::empty()]);
    } else {
        let (fewer, fewer_member) = (rest.drop_last(), rest_member.drop_last());
        law_split_parts(part, unit, fewer, outside, fewer_member);
        assert(units.drop_last() =~= part.push(unit) + fewer);
        assert(member.drop_last() =~= outside.push(true) + fewer_member);
        assert(units.last() == rest.last() && member.last() == rest_member.last());
        let before = split_parts(fewer, fewer_member);
        let longer = seq![part] + before;
        assert(longer.push(Seq::empty()) =~= seq![part] + before.push(Seq::empty()));
        assert(longer.last() == before.last());
        assert(longer.drop_last() =~= seq![part] + before.drop_last());
        let grown = before.last().push(rest.last());
        assert((seq![part] + before.drop_last()).push(grown) =~= seq![part]
            + before.drop_last().push(grown));
    }
}

/// What is left between the ends begins and ends with a unit outside of the set, and only
/// units of the set are dropped. Nothing is left where all of them are.
pub proof fn law_trimmed_ends(member: Seq<bool>, i: int)
    ensures
        ({
            let (start, end) = trimmed_ends(member);
            &&& 0 <= start <= end <= member.len()
            &&& start < end ==> !member[start] && !member[end - 1]
            &&& 0 <= i < start ==> member[i]
            &&& end <= i < member.len() ==> member[i]
        }),
{
    lemma_members_lead(member);
    lemma_members_lead(member.reverse());
    let start = leading_members(member);
    let tail = leading_members(member.reverse());
    if start < member.len() {
        assert(tail <= member.len() - 1 - start) by {
            if tail > member.len() - 1 - start {
                assert(member.reverse()[member.len() - 1 - start] == member[start]);
            }
        }
        assert(member.reverse()[tail] == member[member.len() - 1 - tail]);
        if member.len() - tail <= i < member.len() {
            assert(member.reverse()[member.len() - 1 - i] == member[i]);
        }
    }
}

proof fn lemma_members_lead(member: Seq<bool>)
    ensures
        0 <= leading_members(member) <= member.len(),
        forall|i: int| 0 <= i < leading_members(member) ==> #[trigger] member[i],
        leading_members(member) < member.len() ==> !member[leading_members(member)],
    decreases member.len(),
{
    if member.len() > 0 && member[0] {
        let rest = member.drop_first();
        lemma_members_lead(rest);
        assert forall|i: int| 0 <= i < leading_members(member) implies #[trigger] member[i] by {
            if i > 0 {
                assert(rest[i - 1]);
            }
        }
        if leading_members(rest) < rest.len() {
            assert(rest[leading_members(rest)] == member[leading_members(rest) + 1]);
        }
    }
}

/// A path of a home directory names what follows the first slash, whoever's home it is.
pub proof fn law_within_home(user: Seq<char>, rest: Seq<char>, other: Seq<char>)
    requires
        forall|i: int| 0 <= i < user.len() ==> #[trigger] user[i] != '/',
        other.len() > 0 ==> other[0] != '~',
    ensures
        within_home(seq!['~'] + user + seq!['/'] + rest) == Some(rest),
        within_home(seq!['~'] + user) == Some(Seq::<char>::empty()),
        within_home(other) is None,
{
    let path = seq!['~'] + user + seq!['/'] + rest;
    let slash = 1 + user.len() as int;
    assert(path[0] == '~');
    assert(path[slash] == '/');
    assert(path.contains('/'));
    path.index_of_first_ensures('/');
    let found = path.index_of_first('/')->0;
    assert(found == slash) by {
        if found < slash && found > 0 {
            assert(path[found] == user[found - 1]);
        }
    }
    assert(path.skip(slash + 1) =~= rest);
    let home = seq!['~'] + user;
    assert(home[0] == '~');
    assert(!home.contains('/')) by {
        if home.contains('/') {
            let i = choose|i: int| 0 <= i < home.len() && home[i] == '/';
            assert(i > 0 ==> home[i] == user[i - 1]);
        }
    }
}

/// A file that begins with the mark of UTF-16, in either byte order, is taken for that, and
/// any other for UTF-8.
pub proof fn law_suggested_encoding(bytes: Seq<u8>, rest: Seq<u8>)
    ensures
        suggested_encoding(string_encoding::data_mark(10) + rest) == 10,
        suggested_encoding(seq![0xfeu8, 0xff] + rest) == 10,
        suggested_encoding(bytes) == 10 || suggested_encoding(bytes) == 4,
        bytes.len() < 2 || bytes[0] < 0xfe || bytes[1] < 0xfe || bytes[0] == bytes[1]
            ==> suggested_encoding(bytes) == 4,
{
    assert((string_encoding::data_mark(10) + rest)[0] == 0xff);
    assert((string_encoding::data_mark(10) + rest)[1] == 0xfe);
    assert((seq![0xfeu8, 0xff] + rest)[0] == 0xfe);
    assert((seq![0xfeu8, 0xff] + rest)[1] == 0xff);
}

/// A path with an extension begins with the path and ends with the extension, with one dot
/// between them.
pub proof fn law_extension(path: Seq<char>, extension: Seq<char>, i: int)
    ensures
        with_extension(path, Seq::empty()) == path,
        extension.len() > 0 ==> {
            let combined = with_extension(path, extension);
            &&& combined.len() == path.len() + 1 + extension.len()
            &&& combined[path.len() as int] == '.'
            &&& 0 <= i < path.len() ==> combined[i] == path[i]
            &&& 0 <= i < extension.len() ==> combined[path.len() + 1 + i] == extension[i]
        },
{
}

} // verus!
