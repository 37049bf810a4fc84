//! Characters, decimal numbers and text as sequences of characters.
use vstd::prelude::*;

verus! {

/// Appends one character (`String::push`).
pub assume_specification[ String::push ](s: &mut String, c: char)
    ensures
        final(s)@ == old(s)@.push(c),
;

/// The characters of a text.
pub fn chars_of(s: &str) -> (chars: Vec<char>)
    ensures
        chars@ == s@,
{
    let mut out: Vec<char> = Vec::new();
    for c in it: s.chars()
        invariant
            out@ == s@.take(it.index() as int),
            it.seq() == s@,
    {
        out.push(c);
        assert(s@.take(it.index() as int).push(c) =~= s@.take(it.index() as int + 1));
    }
    assert(s@.take(s@.len() as int) =~= s@);
    out
}

/// The text made of some characters.
pub fn string_of(chars: &Vec<char>) -> (s: String)
    ensures
        s@ == chars@,
{
    let mut out = String::new();
    let mut i: usize = 0;
    while i < chars.len()
        invariant
            i <= chars@.len(),
            out@ == chars@.take(i as int),
        decreases chars@.len() - i,
    {
        out.push(chars[i]);
        i = i + 1;
        assert(out@ =~= chars@.take(i as int));
    }
    assert(chars@.take(i as int) =~= chars@);
    out
}

/// Appends a sequence of characters.
pub fn push_all(out: &mut Vec<char>, more: &Vec<char>)
    ensures
        final(out)@ == old(out)@ + more@,
{
    let mut i: usize = 0;
    while i < more.len()
        invariant
            i <= more@.len(),
            out@ == old(out)@ + more@.take(i as int),
        decreases more@.len() - i,
    {
        out.push(more[i]);
        i = i + 1;
        assert(out@ =~= old(out)@ + more@.take(i as int));
    }
    assert(more@.take(i as int) =~= more@);
}

/// Whether two sequences of characters are equal.
pub fn same_chars(a: &Vec<char>, b: &Vec<char>) -> (same: bool)
    ensures
        same == (a@ == b@),
{
    if a.len() != b.len() {
        return false;
    }
    let mut i: usize = 0;
    while i < a.len()
        invariant
            i <= a@.len(),
            a@.len() == b@.len(),
            a@.take(i as int) == b@.take(i as int),
        decreases a@.len() - i,
    {
        if a[i] != b[i] {
            assert(a@[i as int] != b@[i as int]);
            return false;
        }
        i = i + 1;
        assert(a@.take(i as int) =~= b@.take(i as int));
    }
    assert(a@.take(i as int) =~= a@);
    assert(b@.take(i as int) =~= b@);
    true
}

/// A copy of a sequence of characters.
pub fn copy_chars(a: &Vec<char>) -> (b: Vec<char>)
    ensures
        b@ == a@,
{
    let mut out: Vec<char> = Vec::new();
    push_all(&mut out, a);
    assert(Seq::<char>::empty() + a@ =~= a@);
    out
}

/// The characters from `from` to before `to`.
pub fn slice_chars(a: &Vec<char>, from: usize, to: usize) -> (b: Vec<char>)
    requires
        from <= to <= a@.len(),
    ensures
        b@ == a@.subrange(from as int, to as int),
{
    let mut out: Vec<char> = Vec::new();
    let mut i: usize = from;
    while i < to
        invariant
            from <= i <= to <= a@.len(),
            out@ == a@.subrange(from as int, i as int),
        decreases to - i,
    {
        out.push(a[i]);
        i = i + 1;
        assert(out@ =~= a@.subrange(from as int, i as int));
    }
    out
}

pub open spec fn ascii_digit(c: char) -> bool {
    '0' <= c <= '9'
}

pub open spec fn ascii_alphabetic(c: char) -> bool {
    ('a' <= c <= 'z') || ('A' <= c <= 'Z')
}

pub open spec fn ascii_alphanumeric(c: char) -> bool {
    ascii_digit(c) || ascii_alphabetic(c)
}

/// The characters with the Unicode property White_Space.
pub open spec fn white_space(c: char) -> bool {
    let u = c as u32;
    ||| 0x09 <= u <= 0x0d
    ||| u == 0x20
    ||| u == 0x85
    ||| u == 0xa0
    ||| u == 0x1680
    ||| 0x2000 <= u <= 0x200a
    ||| u == 0x2028
    ||| u == 0x2029
    ||| u == 0x202f
    ||| u == 0x205f
    ||| u == 0x3000
}

pub fn is_ascii_digit(c: char) -> (b: bool)
    ensures
        b == ascii_digit(c),
{
    '0' <= c && c <= '9'
}

pub fn is_ascii_alphabetic(c: char) -> (b: bool)
    ensures
        b == ascii_alphabetic(c),
{
    ('a' <= c && c <= 'z') || ('A' <= c && c <= 'Z')
}

pub fn is_ascii_alphanumeric(c: char) -> (b: bool)
    ensures
        b == ascii_alphanumeric(c),
{
    is_ascii_digit(c) || is_ascii_alphabetic(c)
}

pub fn is_white_space(c: char) -> (b: bool)
    ensures
        b == white_space(c),
{
    let u: u32 = c as u32;
    (0x09 <= u && u <= 0x0d) || u == 0x20 || u == 0x85 || u == 0xa0 || u == 0x1680 || (0x2000 <= u
        && u <= 0x200a) || u == 0x2028 || u == 0x2029 || u == 0x202f || u == 0x205f || u == 0x3000
}

/// The character code with an ASCII capital letter made small.
pub open spec fn ascii_lower_code(c: char) -> int {
    if 'A' <= c <= 'Z' {
        c as int + 32
    } else {
        c as int
    }
}

/// Equality that ignores the case of ASCII letters.
pub open spec fn eq_ascii_case(a: char, b: char) -> bool {
    ascii_lower_code(a) == ascii_lower_code(b)
}

fn lower_code(c: char) -> (u: u32)
    ensures
        u == ascii_lower_code(c),
{
    if 'A' <= c && c <= 'Z' {
        c as u32 + 32
    } else {
        c as u32
    }
}

pub fn eq_ignore_ascii_case(a: char, b: char) -> (same: bool)
    ensures
        same == eq_ascii_case(a, b),
{
    lower_code(a) == lower_code(b)
}

/// Whether `name` stands at `pos`, ignoring the case of ASCII letters.
pub open spec fn stands_at(input: Seq<char>, pos: int, name: Seq<char>) -> bool {
    &&& pos + name.len() <= input.len()
    &&& forall|k: int| 0 <= k < name.len() ==> eq_ascii_case(#[trigger] input[pos + k], name[k])
}

pub fn starts_with_ignore_case(input: &Vec<char>, pos: usize, name: &Vec<char>) -> (found: bool)
    requires
        pos <= input@.len(),
    ensures
        found == stands_at(input@, pos as int, name@),
{
    if name.len() > input.len() - pos {
        return false;
    }
    let mut k: usize = 0;
    while k < name.len()
        invariant
            k <= name@.len(),
            pos + name@.len() <= input.len(),
            forall|j: int| 0 <= j < k ==> eq_ascii_case(#[trigger] input@[pos + j], name@[j]),
        decreases name@.len() - k,
    {
        if !eq_ignore_ascii_case(input[pos + k], name[k]) {
            assert(!eq_ascii_case(input@[pos + k], name@[k as int]));
            return false;
        }
        k = k + 1;
    }
    true
}

pub open spec fn digit_char(d: int) -> char {
    (d + 48) as char
}

/// The character of a decimal digit.
pub fn digit(d: u8) -> (c: char)
    requires
        d < 10,
    ensures
        c == digit_char(d as int),
        ascii_digit(c),
        c as int - 48 == d,
{
    (d + 48) as char
}

/// A number in decimal digits, without leading zeros.
pub open spec fn decimal(n: nat) -> Seq<char>
    decreases n,
{
    if n < 10 {
        seq![digit_char(n as int)]
    } else {
        decimal(n / 10).push(digit_char((n % 10) as int))
    }
}

/// A number in decimal digits, with zeros in front up to `width` digits.
pub open spec fn padded(n: nat, width: nat) -> Seq<char> {
    let digits = decimal(n);
    Seq::new(
        if width > digits.len() {
            (width - digits.len()) as nat
        } else {
            0
        },
        |i: int| '0',
    ) + digits
}

/// The value of a sequence of decimal digits.
pub open spec fn digits_value(digits: Seq<char>) -> int
    decreases digits.len(),
{
    if digits.len() == 0 {
        0
    } else {
        10 * digits_value(digits.drop_last()) + (digits.last() as int - 48)
    }
}

pub open spec fn all_digits(digits: Seq<char>) -> bool {
    forall|i: int| 0 <= i < digits.len() ==> ascii_digit(#[trigger] digits[i])
}

/// The decimal digits of a number.
pub fn decimal_chars(n: u64) -> (digits: Vec<char>)
    ensures
        digits@ == decimal(n as nat),
    decreases n,
{
    if n < 10 {
        let mut out: Vec<char> = Vec::new();
        out.push(digit(n as u8));
        assert(out@ =~= decimal(n as nat));
        out
    } else {
        let mut out = decimal_chars(n / 10);
        out.push(digit((n % 10) as u8));
        out
    }
}

/// The decimal digits of a number, padded with zeros.
pub fn padded_chars(n: u64, width: usize) -> (digits: Vec<char>)
    ensures
        digits@ == padded(n as nat, width as nat),
{
    let digits = decimal_chars(n);
    let mut out: Vec<char> = Vec::new();
    let zeros: usize = if width > digits.len() {
        width - digits.len()
    } else {
        0
    };
    let mut i: usize = 0;
    while i < zeros
        invariant
            i <= zeros,
            out@ == Seq::new(i as nat, |i: int| '0'),
        decreases zeros - i,
    {
        out.push('0');
        i = i + 1;
        assert(out@ =~= Seq::new(i as nat, |i: int| '0'));
    }
    push_all(&mut out, &digits);
    out
}

pub proof fn lemma_digits_value_monotonic(digits: Seq<char>, i: int)
    requires
        all_digits(digits),
        0 <= i <= digits.len(),
    ensures
        0 <= digits_value(digits.take(i)) <= digits_value(digits),
    decreases digits.len(),
{
    if i == digits.len() {
        assert(digits.take(i) =~= digits);
        lemma_digits_value_nonnegative(digits);
    } else {
        assert(digits.drop_last().take(i) =~= digits.take(i));
        assert(all_digits(digits.drop_last()));
        assert(ascii_digit(digits[digits.len() - 1]));
        lemma_digits_value_monotonic(digits.drop_last(), i);
    }
}

proof fn lemma_digits_value_nonnegative(digits: Seq<char>)
    requires
        all_digits(digits),
    ensures
        0 <= digits_value(digits),
    decreases digits.len(),
{
    if digits.len() > 0 {
        assert(all_digits(digits.drop_last()));
        assert(ascii_digit(digits[digits.len() - 1]));
        lemma_digits_value_nonnegative(digits.drop_last());
    }
}

/// The value of a sequence of digits, or nothing if it does not fit.
pub fn parse_digits(digits: &Vec<char>) -> (value: Option<i64>)
    requires
        all_digits(digits@),
    ensures
        match value {
            Some(v) => v == digits_value(digits@),
            None => digits_value(digits@) > i64::MAX,
        },
{
    let mut value: i64 = 0;
    let mut i: usize = 0;
    while i < digits.len()
        invariant
            i <= digits@.len(),
            all_digits(digits@),
            value >= 0,
            value == digits_value(digits@.take(i as int)),
        decreases digits@.len() - i,
    {
        assert(ascii_digit(digits@[i as int]));
        let d: i64 = digits[i] as u32 as i64 - 48;
        assert(digits@.take(i + 1).drop_last() =~= digits@.take(i as int));
        assert(digits@.take(i + 1).last() == digits@[i as int]);
        if value > (i64::MAX - d) / 10 {
            proof {
                lemma_digits_value_monotonic(digits@, i + 1);
            }
            return None;
        }
        value = value * 10 + d;
        i = i + 1;
    }
    assert(digits@.take(i as int) =~= digits@);
    Some(value)
}

/// Reading the digits of a number, padded or not, gives the number back.
pub proof fn law_padded_value(n: nat, width: nat)
    ensures
        all_digits(padded(n, width)),
        digits_value(padded(n, width)) == n,
        padded(n, width).len() >= width,
    decreases n,
{
    lemma_decimal_value(n);
    let digits = decimal(n);
    let zeros = padded(n, width).len() - digits.len();
    lemma_zeros_value(zeros as nat, digits);
}

proof fn lemma_decimal_value(n: nat)
    ensures
        all_digits(decimal(n)),
        digits_value(decimal(n)) == n,
        decimal(n).len() >= 1,
    decreases n,
{
    reveal_with_fuel(digits_value, 2);
    if n >= 10 {
        lemma_decimal_value(n / 10);
        assert(decimal(n).drop_last() =~= decimal(n / 10));
    } else {
        assert(decimal(n).drop_last() =~= Seq::empty());
    }
}

proof fn lemma_zeros_value(zeros: nat, digits: Seq<char>)
    requires
        all_digits(digits),
    ensures
        digits_value(Seq::new(zeros, |i: int| '0') + digits) == digits_value(digits),
    decreases zeros, digits.len(),
{
    let s = Seq::new(zeros, |i: int| '0') + digits;
    if digits.len() > 0 {
        assert(s.drop_last() =~= Seq::new(zeros, |i: int| '0') + digits.drop_last());
        assert(all_digits(digits.drop_last()));
        lemma_zeros_value(zeros, digits.drop_last());
    } else if zeros > 0 {
        assert(s.drop_last() =~= Seq::new((zeros - 1) as nat, |i: int| '0') + digits);
        lemma_zeros_value((zeros - 1) as nat, digits);
    } else {
        assert(s =~= digits);
    }
}

/// A number has no more digits than it needs or than the width asks for.
pub proof fn law_padded_is_short(n: nat, width: nat)
    ensures
        padded(n, width).len() > width && padded(n, width).len() > 1 ==> padded(n, width)[0] != '0',
{
    lemma_no_leading_zero(n);
}

proof fn lemma_no_leading_zero(n: nat)
    ensures
        decimal(n).len() >= 1,
        n > 0 ==> decimal(n)[0] != '0',
        n == 0 ==> decimal(n).len() == 1,
    decreases n,
{
    if n >= 10 {
        lemma_no_leading_zero(n / 10);
        assert(decimal(n)[0] == decimal(n / 10)[0]);
    } else if n > 0 {
        assert((n + 48) as char != '0');
    }
}

/// Without regard to case a character is the same as itself, and an ASCII letter is the
/// same as the other letter of its kind; nothing else is the same.
pub proof fn law_ascii_case(a: char, b: char)
    ensures
        eq_ascii_case(a, b) <==> a == b || (('a' <= a <= 'z') && a as int == b as int + 32) || ((
        'a' <= b <= 'z') && b as int == a as int + 32),
{
}

/// The last digit counts once, and all others ten times as much as without it.
pub proof fn law_digits_value(digits: Seq<char>, d: char)
    ensures
        digits_value(Seq::empty()) == 0,
        digits_value(digits.push(d)) == 10 * digits_value(digits) + (d as int - '0' as int),
{
    assert(digits.push(d).drop_last() =~= digits);
}

} // verus!
