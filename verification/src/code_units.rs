//! UTF-16 code units: searching, comparing and replacing with the options of
//! `NSString`, and line ranges.
use std::cmp::Ordering;
use vstd::prelude::*;

verus! {

pub const NSCaseInsensitiveSearch: u32 = 1;

pub const NSLiteralSearch: u32 = 2;

pub const NSBackwardsSearch: u32 = 4;

pub const NSAnchoredSearch: u32 = 8;

pub const NSNumericSearch: u32 = 64;

pub const NSDiacriticInsensitiveSearch: u32 = 128;

pub const NSWidthInsensitiveSearch: u32 = 256;

pub const NSForcedOrderingSearch: u32 = 512;

pub const NSRegularExpressionSearch: u32 = 1024;

/// All options that are understood; diacritic and width insensitivity have no
/// effect.
pub const KNOWN_COMPARE_OPTIONS: u32 = 0x3cf;

/// The location of a range that was not found.
pub const NSNotFound: u32 = 0x7fff_ffff;

#[derive(Clone, Copy, Debug, PartialEq, Eq, Structural)]
pub struct NSRange {
    pub location: u32,
    pub length: u32,
}

/// The options of a search or a comparison.
#[derive(Clone, Copy, Debug, PartialEq, Eq, Structural)]
pub struct CompareOptions {
    pub case_insensitive: bool,
    pub backwards: bool,
    pub anchored: bool,
    pub numeric: bool,
    pub forced_ordering: bool,
}

impl Default for CompareOptions {
    fn default() -> (o: CompareOptions)
        ensures
            !o.case_insensitive && !o.backwards && !o.anchored && !o.numeric && !o.forced_ordering,
    {
        CompareOptions {
            case_insensitive: false,
            backwards: false,
            anchored: false,
            numeric: false,
            forced_ordering: false,
        }
    }
}

/// The options that the bits of a mask stand for.
pub open spec fn options_of(options: u32) -> CompareOptions {
    CompareOptions {
        case_insensitive: options & NSCaseInsensitiveSearch != 0,
        backwards: options & NSBackwardsSearch != 0,
        anchored: options & NSAnchoredSearch != 0,
        numeric: options & NSNumericSearch != 0,
        forced_ordering: options & NSForcedOrderingSearch != 0,
    }
}

/// The options that a bit set stands for, and the bits that are not known.
pub fn parse_compare_options(options: u32) -> (r: (CompareOptions, u32))
    ensures
        r.0.case_insensitive == (options & NSCaseInsensitiveSearch != 0),
        r.0.backwards == (options & NSBackwardsSearch != 0),
        r.0.anchored == (options & NSAnchoredSearch != 0),
        r.0.numeric == (options & NSNumericSearch != 0),
        r.0.forced_ordering == (options & NSForcedOrderingSearch != 0),
        r.0 == options_of(options),
        r.1 == options & !KNOWN_COMPARE_OPTIONS,
{
    (
        CompareOptions {
            case_insensitive: (options & NSCaseInsensitiveSearch) != 0,
            backwards: (options & NSBackwardsSearch) != 0,
            anchored: (options & NSAnchoredSearch) != 0,
            numeric: (options & NSNumericSearch) != 0,
            forced_ordering: (options & NSForcedOrderingSearch) != 0,
        },
        options & !KNOWN_COMPARE_OPTIONS,
    )
}

/// The Unicode lower case of a character.
pub uninterp spec fn lowercase_of(c: char) -> Seq<char>;

/// The lower case of an ASCII character.
pub open spec fn ascii_lower(c: char) -> char {
    if 'A' <= c <= 'Z' {
        (c as u32 + 32) as char
    } else {
        c
    }
}

/// The lower case of a character.
pub open spec fn lower_case(c: char) -> Seq<char> {
    if (c as u32) < 128 {
        seq![ascii_lower(c)]
    } else {
        lowercase_of(c)
    }
}

/// `char::to_lowercase`, with the characters collected. An ASCII capital gives its
/// small letter, and any other ASCII character gives itself. What the lower case of
/// other characters is comes from the Unicode tables; of them only that it depends on
/// nothing but the character is claimed.
#[verifier::external_body]
fn lowercase(c: char) -> (lower: Vec<char>)
    ensures
        c as u32 >= 128 ==> lower@ == lowercase_of(c),
        (c as u32) < 128 ==> lower@ == seq![ascii_lower(c)],
{
    c.to_lowercase().collect()
}

pub open spec fn is_scalar_value(i: u32) -> bool {
    i <= 0x10_ffff && !(0xd800 <= i <= 0xdfff)
}

/// `char::from_u32`: the character with a given code, where there is one. The
/// codes without a character are those of surrogates and those above the last
/// plane.
pub assume_specification[ char::from_u32 ](i: u32) -> (c: Option<char>)
    ensures
        match c {
            Some(c) => is_scalar_value(i) && c as u32 == i,
            None => !is_scalar_value(i),
        },
;

/// One half of a surrogate pair.
pub open spec fn surrogate(unit: u16) -> bool {
    0xd800 <= unit <= 0xdfff
}

/// Equality of two code units. Without regard to case, the characters' lower
/// cases are compared; surrogates have no case of their own.
pub open spec fn same_unit(a: u16, b: u16, case_insensitive: bool) -> bool {
    a == b || (case_insensitive && !surrogate(a) && !surrogate(b) && lower_case(a as char)
        == lower_case(b as char))
}

pub fn units_equal(a: u16, b: u16, case_insensitive: bool) -> (same: bool)
    ensures
        same == same_unit(a, b, case_insensitive),
{
    if a == b {
        return true;
    }
    if !case_insensitive {
        return false;
    }
    match (char::from_u32(a as u32), char::from_u32(b as u32)) {
        (Some(x), Some(y)) => {
            proof {
                vstd::utf8::char_u32_cast(x, a as u32);
                vstd::utf8::char_u32_cast(y, b as u32);
            }
            crate::text::same_chars(&lowercase(x), &lowercase(y))
        },
        _ => false,
    }
}

/// The result of a comparison.
#[derive(Clone, Copy, Debug, PartialEq, Eq, Structural)]
pub enum Rank {
    Before,
    Same,
    After,
}

pub open spec fn number_rank(a: int, b: int) -> Rank {
    if a < b {
        Rank::Before
    } else if a == b {
        Rank::Same
    } else {
        Rank::After
    }
}

/// Lexicographic order of two sequences of numbers from `i` on.
pub open spec fn lexicographic(a: Seq<int>, b: Seq<int>, i: int) -> Rank
    decreases a.len() - i,
{
    if i < 0 || i >= a.len() || i >= b.len() {
        number_rank(a.len() as int, b.len() as int)
    } else if a[i] == b[i] {
        lexicographic(a, b, i + 1)
    } else {
        number_rank(a[i], b[i])
    }
}

pub open spec fn unit_codes(units: Seq<u16>) -> Seq<int> {
    Seq::new(units.len(), |i: int| units[i] as int)
}

pub open spec fn char_codes(chars: Seq<char>) -> Seq<int> {
    Seq::new(chars.len(), |i: int| chars[i] as int)
}

/// The order of two code units; without regard to case, that of the
/// characters' lower cases.
pub open spec fn unit_rank(a: u16, b: u16, case_insensitive: bool) -> Rank {
    if case_insensitive && a != b && !surrogate(a) && !surrogate(b) {
        lexicographic(
            char_codes(lower_case(a as char)),
            char_codes(lower_case(b as char)),
            0,
        )
    } else {
        number_rank(a as int, b as int)
    }
}

fn rank_numbers(a: usize, b: usize) -> (r: Rank)
    ensures
        r == number_rank(a as int, b as int),
{
    if a < b {
        Rank::Before
    } else if a == b {
        Rank::Same
    } else {
        Rank::After
    }
}

fn rank_chars(a: &Vec<char>, b: &Vec<char>) -> (r: Rank)
    ensures
        r == lexicographic(char_codes(a@), char_codes(b@), 0),
{
    let ghost ca = char_codes(a@);
    let ghost cb = char_codes(b@);
    let mut i: usize = 0;
    while i < a.len() && i < b.len() && a[i] == b[i]
        invariant
            i <= a@.len(),
            i <= b@.len(),
            ca == char_codes(a@),
            cb == char_codes(b@),
            lexicographic(ca, cb, i as int) == lexicographic(ca, cb, 0),
        decreases a@.len() - i,
    {
        i = i + 1;
    }
    if i < a.len() && i < b.len() {
        if a[i] < b[i] {
            Rank::Before
        } else {
            Rank::After
        }
    } else {
        rank_numbers(a.len(), b.len())
    }
}

fn rank_units(a: &[u16], b: &[u16]) -> (r: Rank)
    ensures
        r == lexicographic(unit_codes(a@), unit_codes(b@), 0),
{
    let ghost ca = unit_codes(a@);
    let ghost cb = unit_codes(b@);
    let mut i: usize = 0;
    while i < a.len() && i < b.len() && a[i] == b[i]
        invariant
            i <= a@.len(),
            i <= b@.len(),
            ca == unit_codes(a@),
            cb == unit_codes(b@),
            lexicographic(ca, cb, i as int) == lexicographic(ca, cb, 0),
        decreases a@.len() - i,
    {
        i = i + 1;
    }
    if i < a.len() && i < b.len() {
        rank_numbers(a[i] as usize, b[i] as usize)
    } else {
        rank_numbers(a.len(), b.len())
    }
}

fn rank_unit_pair(a: u16, b: u16, case_insensitive: bool) -> (r: Rank)
    ensures
        r == unit_rank(a, b, case_insensitive),
{
    if case_insensitive && a != b {
        if let (Some(x), Some(y)) = (char::from_u32(a as u32), char::from_u32(b as u32)) {
            proof {
                vstd::utf8::char_u32_cast(x, a as u32);
                vstd::utf8::char_u32_cast(y, b as u32);
            }
            return rank_chars(&lowercase(x), &lowercase(y));
        }
    }
    rank_numbers(a as usize, b as usize)
}

/// Whether `needle` stands at `start`.
pub open spec fn units_at(
    hay: Seq<u16>,
    needle: Seq<u16>,
    start: int,
    case_insensitive: bool,
) -> bool {
    &&& 0 <= start
    &&& start + needle.len() <= hay.len()
    &&& forall|k: int|
        0 <= k < needle.len() ==> same_unit(#[trigger] hay[start + k], needle[k], case_insensitive)
}

fn matches_at(hay: &[u16], needle: &[u16], start: usize, case_insensitive: bool) -> (found: bool)
    requires
        start + needle@.len() <= hay@.len(),
    ensures
        found == units_at(hay@, needle@, start as int, case_insensitive),
{
    let mut k: usize = 0;
    while k < needle.len()
        invariant
            k <= needle@.len(),
            start + needle@.len() <= hay@.len(),
            start + needle@.len() <= hay.len(),
            forall|j: int|
                0 <= j < k ==> same_unit(#[trigger] hay@[start + j], needle@[j], case_insensitive),
        decreases needle@.len() - k,
    {
        if !units_equal(hay[start + k], needle[k], case_insensitive) {
            assert(!same_unit(hay@[start + k], needle@[k as int], case_insensitive));
            return false;
        }
        k = k + 1;
    }
    true
}

/// Where a search finds the needle. An anchored search looks at the start
/// only, or backwards at the end only; otherwise the first match counts, or
/// backwards the last one. An empty needle is never found.
pub open spec fn search_result(
    hay: Seq<u16>,
    needle: Seq<u16>,
    opts: CompareOptions,
    found: Option<usize>,
) -> bool {
    let ci = opts.case_insensitive;
    if needle.len() == 0 || needle.len() > hay.len() {
        found is None
    } else if opts.anchored {
        let at = if opts.backwards {
            hay.len() - needle.len()
        } else {
            0
        };
        match found {
            Some(start) => start == at && units_at(hay, needle, at, ci),
            None => !units_at(hay, needle, at, ci),
        }
    } else {
        match found {
            Some(start) => units_at(hay, needle, start as int, ci) && forall|s: int|
                #[trigger] units_at(hay, needle, s, ci) ==> if opts.backwards {
                    s <= start
                } else {
                    start <= s
                },
            None => forall|s: int| !#[trigger] units_at(hay, needle, s, ci),
        }
    }
}

/// Searches for `needle` in `hay`.
pub fn find_code_units(hay: &[u16], needle: &[u16], opts: CompareOptions) -> (found: Option<usize>)
    ensures
        search_result(hay@, needle@, opts, found),
{
    if needle.len() == 0 || needle.len() > hay.len() {
        return None;
    }
    let ci: bool = opts.case_insensitive;
    let last: usize = hay.len() - needle.len();
    if opts.anchored {
        let start: usize = if opts.backwards {
            last
        } else {
            0
        };
        return if matches_at(hay, needle, start, ci) {
            Some(start)
        } else {
            None
        };
    }
    let mut tried: usize = 0;
    while tried <= last
        invariant
            tried <= last + 1,
            last == hay@.len() - needle@.len(),
            needle@.len() > 0,
            !opts.anchored,
            ci == opts.case_insensitive,
            last + 1 <= hay.len(),
            !opts.backwards ==> forall|s: int|
                0 <= s < tried ==> !#[trigger] units_at(hay@, needle@, s, ci),
            opts.backwards ==> forall|s: int|
                last - tried < s <= last ==> !#[trigger] units_at(hay@, needle@, s, ci),
        decreases last + 1 - tried,
    {
        let start: usize = if opts.backwards {
            last - tried
        } else {
            tried
        };
        if matches_at(hay, needle, start, ci) {
            return Some(start);
        }
        tried = tried + 1;
    }
    None
}

pub open spec fn digit_unit(unit: u16) -> bool {
    48 <= unit <= 57
}

/// The position behind the digits at `i`.
pub open spec fn digits_end(units: Seq<u16>, i: int) -> int
    decreases units.len() - i,
{
    if 0 <= i < units.len() && digit_unit(units[i]) {
        digits_end(units, i + 1)
    } else {
        i
    }
}

/// The position behind the zeros at `i`, up to `end`.
pub open spec fn zeros_end(units: Seq<u16>, i: int, end: int) -> int
    decreases end - i,
{
    if 0 <= i < end && i < units.len() && units[i] == 48 {
        zeros_end(units, i + 1, end)
    } else {
        i
    }
}

/// The digits at `i` without leading zeros.
pub open spec fn significant(units: Seq<u16>, i: int) -> Seq<u16> {
    units.subrange(zeros_end(units, i, digits_end(units, i)), digits_end(units, i))
}

pub proof fn lemma_digits_end(units: Seq<u16>, i: int)
    requires
        0 <= i <= units.len(),
    ensures
        i <= digits_end(units, i) <= units.len(),
        i < units.len() && digit_unit(units[i]) ==> i < digits_end(units, i),
    decreases units.len() - i,
{
    if i < units.len() && digit_unit(units[i]) {
        lemma_digits_end(units, i + 1);
    }
}

pub proof fn lemma_zeros_end(units: Seq<u16>, i: int, end: int)
    requires
        0 <= i <= end <= units.len(),
    ensures
        i <= zeros_end(units, i, end) <= end,
    decreases end - i,
{
    if i < end && units[i] == 48 {
        lemma_zeros_end(units, i + 1, end);
    }
}

/// The order of two numbers written in digits without leading zeros.
pub open spec fn digits_rank(a: Seq<u16>, b: Seq<u16>) -> Rank {
    if a.len() != b.len() {
        number_rank(a.len() as int, b.len() as int)
    } else {
        lexicographic(unit_codes(a), unit_codes(b), 0)
    }
}

/// The order of `a` from `i` on and `b` from `j` on. With the numeric option,
/// digits that meet are compared as numbers.
pub open spec fn rank_from(
    a: Seq<u16>,
    b: Seq<u16>,
    i: int,
    j: int,
    case_insensitive: bool,
    numeric: bool,
) -> Rank
    decreases a.len() - i,
{
    if i < 0 || j < 0 || i >= a.len() || j >= b.len() {
        if i < a.len() {
            Rank::After
        } else if j < b.len() {
            Rank::Before
        } else {
            Rank::Same
        }
    } else if numeric && digit_unit(a[i]) && digit_unit(b[j]) {
        proof {
            lemma_digits_end(a, i);
        }
        let rank = digits_rank(significant(a, i), significant(b, j));
        if rank == Rank::Same {
            rank_from(a, b, digits_end(a, i), digits_end(b, j), case_insensitive, numeric)
        } else {
            rank
        }
    } else {
        let rank = unit_rank(a[i], b[j], case_insensitive);
        if rank == Rank::Same {
            rank_from(a, b, i + 1, j + 1, case_insensitive, numeric)
        } else {
            rank
        }
    }
}

/// The order of two strings under the options. Forced ordering decides ties of
/// an inexact comparison by the code units themselves.
pub open spec fn string_rank(a: Seq<u16>, b: Seq<u16>, opts: CompareOptions) -> Rank {
    let rank = rank_from(a, b, 0, 0, opts.case_insensitive, opts.numeric);
    if rank == Rank::Same && opts.forced_ordering && (opts.case_insensitive || opts.numeric) {
        lexicographic(unit_codes(a), unit_codes(b), 0)
    } else {
        rank
    }
}

/// The end of the digits at `start`, and them without leading zeros.
fn digit_run(units: &[u16], start: usize) -> (r: (Vec<u16>, usize))
    requires
        start < units@.len(),
    ensures
        r.1 == digits_end(units@, start as int),
        r.0@ == significant(units@, start as int),
        start <= r.1 <= units@.len(),
{
    proof {
        lemma_digits_end(units@, start as int);
    }
    let mut end: usize = start;
    while end < units.len() && 48 <= units[end] && units[end] <= 57
        invariant
            start <= end <= units@.len(),
            digits_end(units@, end as int) == digits_end(units@, start as int),
        decreases units@.len() - end,
    {
        end = end + 1;
    }
    let mut from: usize = start;
    while from < end && units[from] == 48
        invariant
            start <= from <= end <= units@.len(),
            zeros_end(units@, from as int, end as int) == zeros_end(
                units@,
                start as int,
                end as int,
            ),
        decreases end - from,
    {
        from = from + 1;
    }
    let digits = slice_units(units, from, end);
    (digits, end)
}

/// The units from `from` to before `to`.
pub fn slice_units(units: &[u16], from: usize, to: usize) -> (part: Vec<u16>)
    requires
        from <= to <= units@.len(),
    ensures
        part@ == units@.subrange(from as int, to as int),
{
    let mut out: Vec<u16> = Vec::new();
    let mut i: usize = from;
    while i < to
        invariant
            from <= i <= to <= units@.len(),
            out@ == units@.subrange(from as int, i as int),
        decreases to - i,
    {
        out.push(units[i]);
        i = i + 1;
        assert(out@ =~= units@.subrange(from as int, i as int));
    }
    out
}

fn rank_code_units(a: &[u16], b: &[u16], opts: CompareOptions) -> (rank: Rank)
    ensures
        rank == string_rank(a@, b@, opts),
{
    let ci: bool = opts.case_insensitive;
    let numeric: bool = opts.numeric;
    let mut i: usize = 0;
    let mut j: usize = 0;
    let mut primary: Rank = Rank::Same;
    while primary == Rank::Same && i < a.len() && j < b.len()
        invariant
            i <= a@.len(),
            j <= b@.len(),
            primary == Rank::Same ==> rank_from(a@, b@, i as int, j as int, ci, numeric)
                == rank_from(a@, b@, 0, 0, ci, numeric),
            primary != Rank::Same ==> primary == rank_from(a@, b@, 0, 0, ci, numeric),
        decreases
                a@.len() - i,
                if primary == Rank::Same {
                    1int
                } else {
                    0
                },
    {
        let x: u16 = a[i];
        let y: u16 = b[j];
        if numeric && 48 <= x && x <= 57 && 48 <= y && y <= 57 {
            proof {
                lemma_digits_end(a@, i as int);
            }
            let (digits_a, next_i): (Vec<u16>, usize) = digit_run(a, i);
            let (digits_b, next_j): (Vec<u16>, usize) = digit_run(b, j);
            primary =
            if digits_a.len() != digits_b.len() {
                rank_numbers(digits_a.len(), digits_b.len())
            } else {
                rank_units(digits_a.as_slice(), digits_b.as_slice())
            };
            if primary == Rank::Same {
                i = next_i;
                j = next_j;
            }
        } else {
            primary = rank_unit_pair(x, y, ci);
            if primary == Rank::Same {
                i = i + 1;
                j = j + 1;
            }
        }
    }
    if primary == Rank::Same {
        if i < a.len() {
            primary = Rank::After;
        } else if j < b.len() {
            primary = Rank::Before;
        }
    }
    if primary == Rank::Same && opts.forced_ordering && (ci || numeric) {
        return rank_units(a, b);
    }
    primary
}

pub open spec fn ordering_of(rank: Rank) -> Ordering {
    match rank {
        Rank::Before => Ordering::Less,
        Rank::Same => Ordering::Equal,
        Rank::After => Ordering::Greater,
    }
}

/// Compares two strings.
pub fn compare_code_units(a: &[u16], b: &[u16], opts: CompareOptions) -> (order: Ordering)
    ensures
        order == ordering_of(string_rank(a@, b@, opts)),
{
    match rank_code_units(a, b, opts) {
        Rank::Before => Ordering::Less,
        Rank::Same => Ordering::Equal,
        Rank::After => Ordering::Greater,
    }
}

/// The code of a comparison result: -1, 0 or 1.
pub fn from_rust_ordering(ordering: Ordering) -> (result: i32)
    ensures
        result == match ordering {
            Ordering::Less => -1i32,
            Ordering::Equal => 0,
            Ordering::Greater => 1,
        },
{
    match ordering {
        Ordering::Less => -1,
        Ordering::Equal => 0,
        Ordering::Greater => 1,
    }
}

/// The rank of two things the other way round.
pub open spec fn reversed(rank: Rank) -> Rank {
    match rank {
        Rank::Before => Rank::After,
        Rank::Same => Rank::Same,
        Rank::After => Rank::Before,
    }
}

/// Swapping two strings turns the order around, under all options.
pub proof fn law_order_is_antisymmetric(a: Seq<u16>, b: Seq<u16>, opts: CompareOptions)
    ensures
        string_rank(b, a, opts) == reversed(string_rank(a, b, opts)),
{
    lemma_rank_from_reversed(a, b, 0, 0, opts.case_insensitive, opts.numeric);
    lemma_lexicographic_reversed(unit_codes(a), unit_codes(b), 0);
}

proof fn lemma_lexicographic_reversed(a: Seq<int>, b: Seq<int>, i: int)
    ensures
        lexicographic(b, a, i) == reversed(lexicographic(a, b, i)),
    decreases a.len() - i,
{
    if 0 <= i < a.len() && i < b.len() && a[i] == b[i] {
        lemma_lexicographic_reversed(a, b, i + 1);
    }
}

proof fn lemma_rank_from_reversed(
    a: Seq<u16>,
    b: Seq<u16>,
    i: int,
    j: int,
    case_insensitive: bool,
    numeric: bool,
)
    requires
        0 <= i <= a.len(),
        0 <= j <= b.len(),
    ensures
        rank_from(b, a, j, i, case_insensitive, numeric) == reversed(
            rank_from(a, b, i, j, case_insensitive, numeric),
        ),
    decreases a.len() - i,
{
    if i < a.len() && j < b.len() {
        lemma_digits_end(a, i);
        lemma_digits_end(b, j);
        if numeric && digit_unit(a[i]) && digit_unit(b[j]) {
            lemma_lexicographic_reversed(
                unit_codes(significant(a, i)),
                unit_codes(significant(b, j)),
                0,
            );
            lemma_rank_from_reversed(
                a,
                b,
                digits_end(a, i),
                digits_end(b, j),
                case_insensitive,
                numeric,
            );
        } else {
            lemma_lexicographic_reversed(
                char_codes(lower_case(a[i] as char)),
                char_codes(lower_case(b[j] as char)),
                0,
            );
            lemma_rank_from_reversed(a, b, i + 1, j + 1, case_insensitive, numeric);
        }
    }
}

/// A string is equal to itself under all options.
pub proof fn law_compare_reflexive(a: Seq<u16>, opts: CompareOptions)
    ensures
        string_rank(a, a, opts) == Rank::Same,
{
    lemma_rank_from_reflexive(a, 0, opts.case_insensitive, opts.numeric);
    lemma_lexicographic_reflexive(unit_codes(a), 0);
}

proof fn lemma_lexicographic_reflexive(a: Seq<int>, i: int)
    requires
        0 <= i,
    ensures
        lexicographic(a, a, i) == Rank::Same,
    decreases a.len() - i,
{
    if i < a.len() {
        lemma_lexicographic_reflexive(a, i + 1);
    }
}

proof fn lemma_rank_from_reflexive(a: Seq<u16>, i: int, case_insensitive: bool, numeric: bool)
    requires
        0 <= i,
    ensures
        rank_from(a, a, i, i, case_insensitive, numeric) == Rank::Same,
    decreases a.len() - i,
{
    if i < a.len() {
        if numeric && digit_unit(a[i]) {
            lemma_digits_end(a, i);
            lemma_lexicographic_reflexive(unit_codes(significant(a, i)), 0);
            lemma_rank_from_reflexive(a, digits_end(a, i), case_insensitive, numeric);
        } else {
            lemma_rank_from_reflexive(a, i + 1, case_insensitive, numeric);
        }
    }
}

/// Under forced ordering two strings are equal only if they have the same code
/// units.
pub proof fn law_forced_ordering_decides(a: Seq<u16>, b: Seq<u16>, opts: CompareOptions)
    requires
        opts.forced_ordering,
        string_rank(a, b, opts) == Rank::Same,
    ensures
        a == b,
{
    if opts.case_insensitive || opts.numeric {
        lemma_lexicographic_same(unit_codes(a), unit_codes(b), 0);
        assert forall|k: int| 0 <= k < a.len() implies a[k] == b[k] by {
            assert(unit_codes(a)[k] == unit_codes(b)[k]);
        }
    } else {
        lemma_literal_same(a, b, 0);
    }
    assert(a =~= b);
}

proof fn lemma_lexicographic_same(a: Seq<int>, b: Seq<int>, i: int)
    requires
        0 <= i <= a.len(),
        i <= b.len(),
        lexicographic(a, b, i) == Rank::Same,
    ensures
        a.len() == b.len(),
        forall|k: int| i <= k < a.len() ==> #[trigger] a[k] == b[k],
    decreases a.len() - i,
{
    if i < a.len() && i < b.len() && a[i] == b[i] {
        lemma_lexicographic_same(a, b, i + 1);
    }
}

proof fn lemma_literal_same(a: Seq<u16>, b: Seq<u16>, i: int)
    requires
        0 <= i <= a.len(),
        i <= b.len(),
        rank_from(a, b, i, i, false, false) == Rank::Same,
    ensures
        a.len() == b.len(),
        forall|k: int| i <= k < a.len() ==> #[trigger] a[k] == b[k],
    decreases a.len() - i,
{
    if i < a.len() && i < b.len() && a[i] == b[i] {
        lemma_literal_same(a, b, i + 1);
    }
}

/// The matches that do not overlap, searched from `from` on.
pub open spec fn forward_matches(
    src: Seq<u16>,
    target: Seq<u16>,
    case_insensitive: bool,
    from: int,
) -> Seq<int>
    decreases src.len() - from,
{
    if from < 0 || target.len() == 0 || from + target.len() > src.len() {
        Seq::empty()
    } else if units_at(src, target, from, case_insensitive) {
        seq![from] + forward_matches(src, target, case_insensitive, from + target.len())
    } else {
        forward_matches(src, target, case_insensitive, from + 1)
    }
}

/// The matches that do not overlap, searched backwards from `end`.
pub open spec fn backward_matches(
    src: Seq<u16>,
    target: Seq<u16>,
    case_insensitive: bool,
    end: int,
) -> Seq<int>
    decreases end,
{
    if target.len() == 0 || end < target.len() {
        Seq::empty()
    } else if units_at(src, target, end - target.len(), case_insensitive) {
        backward_matches(src, target, case_insensitive, end - target.len()).push(
            end - target.len(),
        )
    } else {
        backward_matches(src, target, case_insensitive, end - 1)
    }
}

/// The matches that are replaced, in ascending order.
pub open spec fn matches_to_replace(
    src: Seq<u16>,
    target: Seq<u16>,
    opts: CompareOptions,
) -> Seq<int> {
    let ci = opts.case_insensitive;
    if target.len() == 0 || target.len() > src.len() {
        Seq::empty()
    } else if opts.anchored {
        let at = if opts.backwards {
            src.len() - target.len()
        } else {
            0
        };
        if units_at(src, target, at, ci) {
            seq![at]
        } else {
            Seq::empty()
        }
    } else if opts.backwards {
        backward_matches(src, target, ci, src.len() as int)
    } else {
        forward_matches(src, target, ci, 0)
    }
}

/// The matches are in order, do not overlap, and lie between `from` and `end`.
pub open spec fn in_order(starts: Seq<int>, from: int, size: int, end: int) -> bool
    decreases starts.len(),
{
    if starts.len() == 0 {
        from <= end
    } else {
        from <= starts[0] && starts[0] + size <= end && in_order(
            starts.drop_first(),
            starts[0] + size,
            size,
            end,
        )
    }
}

/// The units from `from` on, with `size` units at each start replaced.
pub open spec fn replaced_from(
    src: Seq<u16>,
    starts: Seq<int>,
    from: int,
    size: int,
    replacement: Seq<u16>,
) -> Seq<u16>
    decreases starts.len(),
{
    if starts.len() == 0 {
        src.skip(from)
    } else {
        src.subrange(from, starts[0]) + replacement + replaced_from(
            src,
            starts.drop_first(),
            starts[0] + size,
            size,
            replacement,
        )
    }
}

proof fn lemma_forward_in_order(src: Seq<u16>, target: Seq<u16>, ci: bool, from: int)
    requires
        0 <= from <= src.len(),
    ensures
        in_order(
            forward_matches(src, target, ci, from),
            from,
            target.len() as int,
            src.len() as int,
        ),
    decreases src.len() - from,
{
    if target.len() > 0 && from + target.len() <= src.len() {
        if units_at(src, target, from, ci) {
            lemma_forward_in_order(src, target, ci, from + target.len());
            let rest = forward_matches(src, target, ci, from + target.len());
            assert((seq![from] + rest).drop_first() =~= rest);
        } else {
            lemma_forward_in_order(src, target, ci, from + 1);
            lemma_in_order_weaken(
                forward_matches(src, target, ci, from + 1),
                from,
                from + 1,
                target.len() as int,
                src.len() as int,
                src.len() as int,
            );
        }
    }
}

proof fn lemma_in_order_weaken(starts: Seq<int>, from: int, to: int, size: int, end: int, far: int)
    requires
        from <= to,
        end <= far,
        0 <= size,
        in_order(starts, to, size, end),
    ensures
        in_order(starts, from, size, far),
    decreases starts.len(),
{
    if starts.len() > 0 {
        lemma_in_order_weaken(
            starts.drop_first(),
            starts[0] + size,
            starts[0] + size,
            size,
            end,
            far,
        );
    }
}

proof fn lemma_in_order_push(starts: Seq<int>, from: int, size: int, last: int)
    requires
        0 <= size,
        in_order(starts, from, size, last),
    ensures
        in_order(starts.push(last), from, size, last + size),
    decreases starts.len(),
{
    reveal_with_fuel(in_order, 2);
    if starts.len() > 0 {
        lemma_in_order_push(starts.drop_first(), starts[0] + size, size, last);
        assert(starts.push(last).drop_first() =~= starts.drop_first().push(last));
    } else {
        assert(starts.push(last).drop_first() =~= Seq::<int>::empty());
    }
}

proof fn lemma_backward_in_order(src: Seq<u16>, target: Seq<u16>, ci: bool, end: int)
    requires
        0 <= end <= src.len(),
    ensures
        in_order(backward_matches(src, target, ci, end), 0, target.len() as int, end),
    decreases end,
{
    if target.len() > 0 && end >= target.len() {
        let n = target.len() as int;
        if units_at(src, target, end - n, ci) {
            lemma_backward_in_order(src, target, ci, end - n);
            lemma_in_order_push(backward_matches(src, target, ci, end - n), 0, n, end - n);
        } else {
            lemma_backward_in_order(src, target, ci, end - 1);
            lemma_in_order_weaken(
                backward_matches(src, target, ci, end - 1),
                0,
                0,
                n,
                end - 1,
                end,
            );
        }
    }
}

pub proof fn lemma_matches_in_order(src: Seq<u16>, target: Seq<u16>, opts: CompareOptions)
    ensures
        in_order(
            matches_to_replace(src, target, opts),
            0,
            target.len() as int,
            src.len() as int,
        ),
{
    lemma_forward_in_order(src, target, opts.case_insensitive, 0);
    lemma_backward_in_order(src, target, opts.case_insensitive, src.len() as int);
    reveal_with_fuel(in_order, 2);
    let n = target.len() as int;
    assert(seq![0int].drop_first() =~= Seq::<int>::empty());
    assert(seq![src.len() - n].drop_first() =~= Seq::<int>::empty());
}

pub open spec fn as_ints(v: Seq<usize>) -> Seq<int> {
    Seq::new(v.len(), |i: int| v[i] as int)
}

pub open spec fn reversed_ints(v: Seq<usize>) -> Seq<int> {
    Seq::new(v.len(), |i: int| v[v.len() - 1 - i] as int)
}

fn forward_starts(src: &[u16], target: &[u16], ci: bool) -> (starts: Vec<usize>)
    requires
        0 < target@.len() <= src@.len(),
    ensures
        as_ints(starts@) == forward_matches(src@, target@, ci, 0),
{
    let mut starts: Vec<usize> = Vec::new();
    let mut from: usize = 0;
    assert(as_ints(starts@) + forward_matches(src@, target@, ci, 0) =~= forward_matches(
        src@,
        target@,
        ci,
        0,
    ));
    while from <= src.len() - target.len()
        invariant
            0 < target@.len() <= src@.len(),
            from <= src.len(),
            as_ints(starts@) + forward_matches(src@, target@, ci, from as int) == forward_matches(
                src@,
                target@,
                ci,
                0,
            ),
        decreases src@.len() - from,
    {
        if matches_at(src, target, from, ci) {
            let ghost before = as_ints(starts@);
            let ghost rest = forward_matches(src@, target@, ci, from + target@.len());
            starts.push(from);
            assert(as_ints(starts@) =~= before.push(from as int));
            assert(before + (seq![from as int] + rest) =~= as_ints(starts@) + rest);
            from = from + target.len();
        } else {
            from = from + 1;
        }
    }
    assert(as_ints(starts@) + Seq::<int>::empty() =~= as_ints(starts@));
    starts
}

fn backward_starts(src: &[u16], target: &[u16], ci: bool) -> (starts: Vec<usize>)
    requires
        0 < target@.len() <= src@.len(),
    ensures
        as_ints(starts@) == backward_matches(src@, target@, ci, src@.len() as int),
{
    let mut found: Vec<usize> = Vec::new();
    let mut end: usize = src.len();
    assert(backward_matches(src@, target@, ci, end as int) + reversed_ints(found@)
        =~= backward_matches(src@, target@, ci, src@.len() as int));
    while end >= target.len()
        invariant
            0 < target@.len() <= src@.len(),
            end <= src@.len(),
            backward_matches(src@, target@, ci, end as int) + reversed_ints(found@)
                == backward_matches(src@, target@, ci, src@.len() as int),
        decreases end,
    {
        let start: usize = end - target.len();
        if matches_at(src, target, start, ci) {
            let ghost before = reversed_ints(found@);
            let ghost earlier = backward_matches(src@, target@, ci, start as int);
            found.push(start);
            assert(reversed_ints(found@) =~= seq![start as int] + before);
            assert(earlier.push(start as int) + before =~= earlier + reversed_ints(found@));
            end = start;
        } else {
            end = end - 1;
        }
    }
    assert(Seq::<int>::empty() + reversed_ints(found@) =~= reversed_ints(found@));
    let mut starts: Vec<usize> = Vec::new();
    let mut k: usize = found.len();
    while k > 0
        invariant
            k <= found@.len(),
            as_ints(starts@) == reversed_ints(found@).take(found@.len() - k),
        decreases k,
    {
        let ghost before = as_ints(starts@);
        k = k - 1;
        starts.push(found[k]);
        assert(as_ints(starts@) =~= before.push(found@[k as int] as int));
        assert(as_ints(starts@) =~= reversed_ints(found@).take(found@.len() - k));
    }
    assert(reversed_ints(found@).take(found@.len() as int) =~= reversed_ints(found@));
    starts
}

pub fn push_units(out: &mut Vec<u16>, units: &[u16], from: usize, to: usize)
    requires
        from <= to <= units@.len(),
    ensures
        final(out)@ == old(out)@ + units@.subrange(from as int, to as int),
{
    let mut i: usize = from;
    assert(out@ =~= old(out)@ + units@.subrange(from as int, from as int));
    while i < to
        invariant
            from <= i <= to <= units@.len(),
            out@ == old(out)@ + units@.subrange(from as int, i as int),
        decreases to - i,
    {
        out.push(units[i]);
        i = i + 1;
        assert(out@ =~= old(out)@ + units@.subrange(from as int, i as int));
    }
}

/// Replaces every match that does not overlap another one; the result and the
/// number of replacements.
pub fn replace_code_units(
    src: &[u16],
    target: &[u16],
    replacement: &[u16],
    opts: CompareOptions,
) -> (r: (Vec<u16>, usize))
    ensures
        r.0@ == replaced_from(
            src@,
            matches_to_replace(src@, target@, opts),
            0,
            target@.len() as int,
            replacement@,
        ),
        r.1 == matches_to_replace(src@, target@, opts).len(),
{
    let mut starts: Vec<usize> = Vec::new();
    let ci: bool = opts.case_insensitive;
    if target.len() > 0 && target.len() <= src.len() {
        if opts.anchored {
            let at: usize = if opts.backwards {
                src.len() - target.len()
            } else {
                0
            };
            if matches_at(src, target, at, ci) {
                starts.push(at);
            }
        } else if opts.backwards {
            starts = backward_starts(src, target, ci);
        } else {
            starts = forward_starts(src, target, ci);
        }
    }
    let ghost all = matches_to_replace(src@, target@, opts);
    let ghost size = target@.len() as int;
    proof {
        assert(as_ints(starts@) =~= all);
        lemma_matches_in_order(src@, target@, opts);
        assert(all.skip(0) =~= all);
    }
    let mut result: Vec<u16> = Vec::new();
    let mut copied: usize = 0;
    let mut k: usize = 0;
    let ghost goal = replaced_from(src@, all, 0, size, replacement@);
    assert(result@ + replaced_from(src@, all.skip(0), 0, size, replacement@) =~= goal);
    while k < starts.len()
        invariant
            k <= starts@.len(),
            size == target@.len(),
            as_ints(starts@) == all,
            copied <= src@.len(),
            in_order(all.skip(k as int), copied as int, size, src@.len() as int),
            result@ + replaced_from(src@, all.skip(k as int), copied as int, size, replacement@)
                == goal,
        decreases starts@.len() - k,
    {
        let start: usize = starts[k];
        let ghost rest = all.skip(k as int);
        let ghost tail = replaced_from(src@, all.skip(k + 1), start + size, size, replacement@);
        let ghost before = result@;
        assert(rest[0] == as_ints(starts@)[k as int]);
        assert(rest.drop_first() =~= all.skip(k + 1));
        assert(start + size <= src.len());
        push_units(&mut result, src, copied, start);
        push_units(&mut result, replacement, 0, replacement.len());
        assert(replacement@.subrange(0, replacement@.len() as int) =~= replacement@);
        assert(before + (src@.subrange(copied as int, start as int) + replacement@ + tail)
            =~= result@ + tail);
        copied = start + target.len();
        k = k + 1;
    }
    let ghost before = result@;
    push_units(&mut result, src, copied, src.len());
    assert(src@.skip(copied as int) =~= src@.subrange(copied as int, src@.len() as int));
    (result, starts.len())
}

/// Replacing matches of an exact search by the target itself changes nothing.
pub proof fn law_replace_by_itself(src: Seq<u16>, target: Seq<u16>, opts: CompareOptions)
    requires
        !opts.case_insensitive,
    ensures
        replaced_from(
            src,
            matches_to_replace(src, target, opts),
            0,
            target.len() as int,
            target,
        ) == src,
{
    let starts = matches_to_replace(src, target, opts);
    lemma_matches_in_order(src, target, opts);
    assert forall|k: int| 0 <= k < starts.len() implies units_at(
        src,
        target,
        #[trigger] starts[k],
        false,
    ) by {
        lemma_matches_match(src, target, opts, k);
    }
    lemma_replace_same(src, target, starts, 0);
    assert(src.skip(0) =~= src);
}

proof fn lemma_matches_match(src: Seq<u16>, target: Seq<u16>, opts: CompareOptions, k: int)
    requires
        0 <= k < matches_to_replace(src, target, opts).len(),
    ensures
        units_at(
            src,
            target,
            matches_to_replace(src, target, opts)[k],
            opts.case_insensitive,
        ),
{
    if !opts.anchored {
        if opts.backwards {
            lemma_backward_match(src, target, opts.case_insensitive, src.len() as int, k);
        } else {
            lemma_forward_match(src, target, opts.case_insensitive, 0, k);
        }
    }
}

proof fn lemma_forward_match(src: Seq<u16>, target: Seq<u16>, ci: bool, from: int, k: int)
    requires
        0 <= k < forward_matches(src, target, ci, from).len(),
    ensures
        units_at(src, target, forward_matches(src, target, ci, from)[k], ci),
    decreases src.len() - from,
{
    if units_at(src, target, from, ci) {
        if k > 0 {
            lemma_forward_match(src, target, ci, from + target.len(), k - 1);
        }
    } else {
        lemma_forward_match(src, target, ci, from + 1, k);
    }
}

proof fn lemma_backward_match(src: Seq<u16>, target: Seq<u16>, ci: bool, end: int, k: int)
    requires
        0 <= k < backward_matches(src, target, ci, end).len(),
    ensures
        units_at(src, target, backward_matches(src, target, ci, end)[k], ci),
    decreases end,
{
    if units_at(src, target, end - target.len(), ci) {
        if k < backward_matches(src, target, ci, end).len() - 1 {
            lemma_backward_match(src, target, ci, end - target.len(), k);
        }
    } else {
        lemma_backward_match(src, target, ci, end - 1, k);
    }
}

proof fn lemma_replace_same(src: Seq<u16>, target: Seq<u16>, starts: Seq<int>, from: int)
    requires
        0 <= from <= src.len(),
        in_order(starts, from, target.len() as int, src.len() as int),
        forall|k: int|
            0 <= k < starts.len() ==> units_at(src, target, #[trigger] starts[k], false),
    ensures
        replaced_from(src, starts, from, target.len() as int, target) == src.skip(from),
    decreases starts.len(),
{
    if starts.len() > 0 {
        let n = target.len() as int;
        let start = starts[0];
        let rest = starts.drop_first();
        assert forall|k: int| 0 <= k < rest.len() implies units_at(
            src,
            target,
            #[trigger] rest[k],
            false,
        ) by {
            assert(rest[k] == starts[k + 1]);
        }
        lemma_replace_same(src, target, rest, start + n);
        assert(units_at(src, target, starts[0], false));
        assert(src.subrange(start, start + n) =~= target) by {
            assert forall|k: int| 0 <= k < n implies src.subrange(start, start + n)[k]
                == target[k] by {
                assert(same_unit(src[start + k], target[k], false));
            }
        }
        assert(src.subrange(from, start) + target + src.skip(start + n) =~= src.skip(from)) by {
            assert(target =~= src.subrange(start, start + n));
        }
    }
}

/// Every replacement changes the length by the same amount.
pub proof fn law_replace_length(
    src: Seq<u16>,
    target: Seq<u16>,
    replacement: Seq<u16>,
    opts: CompareOptions,
)
    ensures
        ({
            let starts = matches_to_replace(src, target, opts);
            replaced_from(src, starts, 0, target.len() as int, replacement).len() == src.len()
                + starts.len() * (replacement.len() - target.len())
        }),
{
    lemma_matches_in_order(src, target, opts);
    lemma_replace_length(
        src,
        target.len() as int,
        replacement,
        matches_to_replace(src, target, opts),
        0,
    );
}

proof fn lemma_replace_length(
    src: Seq<u16>,
    size: int,
    replacement: Seq<u16>,
    starts: Seq<int>,
    from: int,
)
    requires
        0 <= from <= src.len(),
        0 <= size,
        in_order(starts, from, size, src.len() as int),
    ensures
        replaced_from(src, starts, from, size, replacement).len() == src.len() - from
            + starts.len() * (replacement.len() - size),
    decreases starts.len(),
{
    if starts.len() > 0 {
        lemma_replace_length(src, size, replacement, starts.drop_first(), starts[0] + size);
        let d = replacement.len() - size;
        assert(starts.len() * d == (starts.len() - 1) * d + d) by (nonlinear_arith)
            requires
                starts.len() >= 1,
        ;
    } else {
        assert(starts.len() * (replacement.len() - size) == 0) by (nonlinear_arith)
            requires
                starts.len() == 0,
        ;
    }
}

/// Whether a line ends in front of `p`, seen from the range that starts at
/// `r`: a carriage return directly in front of the range does not end the line
/// if the range starts with its line feed.
pub open spec fn line_breaks_before(units: Seq<u16>, r: int, p: int) -> bool {
    let c = units[p - 1];
    ||| c == 0x0a || c == 0x85 || c == 0x2028 || c == 0x2029
    ||| c == 0x0d && !(p == r && p < units.len() && units[p] == 0x0a)
}

/// The start of the line, searched backwards from `p`.
pub open spec fn line_start(units: Seq<u16>, r: int, p: int) -> int
    decreases p,
{
    if p <= 0 {
        0
    } else if line_breaks_before(units, r, p) {
        p
    } else {
        line_start(units, r, p - 1)
    }
}

pub open spec fn line_delimiter(c: u16) -> bool {
    c == 0x0a || c == 0x0d || c == 0x85 || c == 0x2028 || c == 0x2029
}

/// The first line delimiter from `p` on, or the end of the string.
pub open spec fn next_delimiter(units: Seq<u16>, p: int) -> int
    decreases units.len() - p,
{
    if p < 0 || p >= units.len() || line_delimiter(units[p]) {
        p
    } else {
        next_delimiter(units, p + 1)
    }
}

/// The end of a line's contents and the end of the line, given the first
/// delimiter. A carriage return and a line feed together are one delimiter.
pub open spec fn line_ends(units: Seq<u16>, d: int) -> (int, int) {
    if d >= units.len() {
        (d, d)
    } else if units[d] == 0x0a && d > 0 && units[d - 1] == 0x0d {
        (d - 1, d + 1)
    } else if units[d] == 0x0d && d + 1 < units.len() && units[d + 1] == 0x0a {
        (d, d + 2)
    } else {
        (d, d + 1)
    }
}

/// Where the search for the end of the line starts: at the last unit of the
/// range, or at an empty range itself.
pub open spec fn last_of_range(location: int, length: int) -> int {
    if length > 0 {
        location + length - 1
    } else {
        location
    }
}

/// Where the lines that a range touches start and end, and where the contents of
/// the last one end.
pub open spec fn line_bounds(units: Seq<u16>, location: int, length: int) -> (int, int, int) {
    let ends = line_ends(units, next_delimiter(units, last_of_range(location, length)));
    (line_start(units, location, location), ends.1, ends.0)
}

/// The line or lines that cover a range: their start, their end, and the end
/// of the contents of the last one. What is not asked for is zero.
pub fn line_range_helper(
    string: &Vec<u16>,
    range: NSRange,
    get_start: bool,
    get_end: bool,
) -> (r: (u32, u32, u32))
    requires
        range.location + range.length <= string@.len() <= u32::MAX,
    ensures
        r.0 == if get_start {
            line_start(string@, range.location as int, range.location as int)
        } else {
            0
        },
        ({
            let ends = line_ends(
                string@,
                next_delimiter(
                    string@,
                    last_of_range(range.location as int, range.length as int),
                ),
            );
            &&& r.1 == if get_end {
                ends.1
            } else {
                0
            }
            &&& r.2 == if get_end {
                ends.0
            } else {
                0
            }
        }),
{
    let r_start: usize = range.location as usize;
    let len: usize = string.len();
    let mut start: usize = 0;
    if get_start {
        start = r_start;
        while start > 0
            invariant
                start <= r_start <= len,
                len == string@.len(),
                line_start(string@, r_start as int, start as int) == line_start(
                    string@,
                    r_start as int,
                    r_start as int,
                ),
                start < r_start || start == r_start,
            ensures
                start <= r_start <= len,
                start == line_start(string@, r_start as int, r_start as int),
            decreases start,
        {
            let c: u16 = string[start - 1];
            let ends: bool = match c {
                0x000A | 0x0085 | 0x2028 | 0x2029 => true,
                0x000D => !(start == r_start && start < len && string[start] == 0x000A),
                _ => false,
            };
            if ends {
                break;
            }
            start = start - 1;
        }
    }
    let mut end: usize = 0;
    let mut contents_end: usize = 0;
    if get_end {
        let first: usize = if range.length > 0 {
            r_start + (range.length as usize - 1)
        } else {
            r_start
        };
        let mut d: usize = first;
        while d < len && !is_line_delimiter(string[d])
            invariant
                first <= d <= len,
                len == string@.len(),
                next_delimiter(string@, d as int) == next_delimiter(string@, first as int),
            decreases len - d,
        {
            d = d + 1;
        }
        if d >= len {
            contents_end = d;
            end = d;
        } else if string[d] == 0x0a && d > 0 && string[d - 1] == 0x0d {
            contents_end = d - 1;
            end = d + 1;
        } else if string[d] == 0x0d && d < len - 1 && string[d + 1] == 0x0a {
            contents_end = d;
            end = d + 2;
        } else {
            contents_end = d;
            end = d + 1;
        }
    }
    (start as u32, end as u32, contents_end as u32)
}

fn is_line_delimiter(c: u16) -> (b: bool)
    ensures
        b == line_delimiter(c),
{
    c == 0x0a || c == 0x0d || c == 0x85 || c == 0x2028 || c == 0x2029
}

/// The lines that cover a range contain it: they start no later and end no
/// earlier, and the contents end no later than the line.
pub proof fn law_line_range_covers(units: Seq<u16>, location: int, length: int)
    requires
        0 <= location,
        0 <= length,
        location + length <= units.len(),
    ensures
        0 <= line_start(units, location, location) <= location,
        ({
            let ends = line_ends(
                units,
                next_delimiter(units, last_of_range(location, length)),
            );
            &&& location + length <= ends.1 <= units.len()
            &&& ends.0 <= ends.1
        }),
{
    lemma_line_start_bound(units, location, location);
    lemma_next_delimiter_bound(units, last_of_range(location, length));
}

proof fn lemma_line_start_bound(units: Seq<u16>, r: int, p: int)
    requires
        0 <= p,
    ensures
        0 <= line_start(units, r, p) <= p,
    decreases p,
{
    if p > 0 && !line_breaks_before(units, r, p) {
        lemma_line_start_bound(units, r, p - 1);
    }
}

proof fn lemma_next_delimiter_bound(units: Seq<u16>, p: int)
    requires
        0 <= p <= units.len(),
    ensures
        p <= next_delimiter(units, p) <= units.len(),
    decreases units.len() - p,
{
    if p < units.len() && !line_delimiter(units[p]) {
        lemma_next_delimiter_bound(units, p + 1);
    }
}

/// Where the part of a string that a range covers starts and ends; a range
/// that reaches beyond the string is cut off.
pub open spec fn clipped(len: int, location: int, length: int) -> (int, int) {
    (
        if location < len {
            location
        } else {
            len
        },
        if location + length < len {
            location + length
        } else {
            len
        },
    )
}

/// Searches for `needle` in the part of `hay` that a range covers; the range of
/// the match in the whole string.
pub fn range_of_units(hay: &[u16], needle: &[u16], opts: CompareOptions, range: NSRange) -> (found:
    Option<(usize, usize)>)
    ensures
        ({
            let (start, end) = clipped(
                hay@.len() as int,
                range.location as int,
                range.length as int,
            );
            match found {
                Some((location, length)) => {
                    &&& start <= location
                    &&& length == needle@.len()
                    &&& search_result(
                        hay@.subrange(start, end),
                        needle@,
                        opts,
                        Some((location - start) as usize),
                    )
                },
                None => search_result(hay@.subrange(start, end), needle@, opts, None),
            }
        }),
{
    let len: usize = hay.len();
    let location: usize = range.location as usize;
    let length: usize = range.length as usize;
    let start: usize = if location < len {
        location
    } else {
        len
    };
    let end: usize = if length < len - start {
        start + length
    } else {
        len
    };
    let part = slice_units(hay, start, end);
    match find_code_units(part.as_slice(), needle, opts) {
        Some(offset) => Some((start + offset, needle.len())),
        None => None,
    }
}

/// A code unit with a capital ASCII letter made small, where case does not count.
pub open spec fn folded(unit: u16, case_insensitive: bool) -> u16 {
    if case_insensitive && 65 <= unit <= 90 {
        (unit + 32) as u16
    } else {
        unit
    }
}

/// No case is taken account of beyond ASCII.
pub open spec fn plain_case(units: Seq<u16>, case_insensitive: bool) -> bool {
    case_insensitive ==> forall|i: int| 0 <= i < units.len() ==> #[trigger] units[i] < 128
}

/// Two code units count as the same if they are, or without regard to case if they are
/// the same ASCII letter; and they come in the order of their codes.
pub proof fn law_unit_order(a: u16, b: u16, case_insensitive: bool)
    requires
        case_insensitive ==> a < 128 && b < 128,
    ensures
        same_unit(a, b, case_insensitive) <==> folded(a, case_insensitive) == folded(
            b,
            case_insensitive,
        ),
        unit_rank(a, b, case_insensitive) is Before <==> folded(a, case_insensitive) < folded(
            b,
            case_insensitive,
        ),
        unit_rank(a, b, case_insensitive) is Same <==> folded(a, case_insensitive) == folded(
            b,
            case_insensitive,
        ),
        unit_rank(a, b, case_insensitive) is After <==> folded(a, case_insensitive) > folded(
            b,
            case_insensitive,
        ),
{
    if case_insensitive {
        lemma_ascii_codes(a);
        lemma_ascii_codes(b);
        let ca = char_codes(lower_case(a as char));
        let cb = char_codes(lower_case(b as char));
        assert(ca.len() == 1 && cb.len() == 1);
        assert(ca[0] == folded(a, true) && cb[0] == folded(b, true));
        assert(lexicographic(ca, cb, 1) == Rank::Same);
        if lower_case(a as char) == lower_case(b as char) {
            assert(ca[0] == cb[0]);
        } else {
            assert(lower_case(a as char) =~= seq![ascii_lower(a as char)]);
            assert(lower_case(b as char) =~= seq![ascii_lower(b as char)]);
            assert(ascii_lower(a as char) != ascii_lower(b as char));
        }
    }
}

proof fn lemma_ascii_codes(a: u16)
    requires
        a < 128,
    ensures
        lower_case(a as char) == seq![ascii_lower(a as char)],
        ascii_lower(a as char) as int == folded(a, true),
{
}

/// The strings agree up to `k`, where one of them ends or they have different units.
pub open spec fn differ_at(a: Seq<u16>, b: Seq<u16>, k: int, case_insensitive: bool) -> bool {
    &&& 0 <= k <= a.len()
    &&& k <= b.len()
    &&& forall|i: int|
        0 <= i < k ==> folded(#[trigger] a[i], case_insensitive) == folded(b[i], case_insensitive)
    &&& k == a.len() || k == b.len() || folded(a[k], case_insensitive) != folded(
        b[k],
        case_insensitive,
    )
}

/// The first difference decides the order of two strings: the string with the lesser unit
/// comes first, and a string comes before those that it begins. Without a difference the
/// strings are equal. Where case does not count this is stated of ASCII.
pub proof fn law_first_difference_decides(
    a: Seq<u16>,
    b: Seq<u16>,
    opts: CompareOptions,
    k: int,
)
    requires
        !opts.numeric,
        !(opts.forced_ordering && opts.case_insensitive),
        plain_case(a, opts.case_insensitive),
        plain_case(b, opts.case_insensitive),
        differ_at(a, b, k, opts.case_insensitive),
    ensures
        ({
            let ci = opts.case_insensitive;
            let rank = string_rank(a, b, opts);
            &&& k == a.len() && k == b.len() ==> rank is Same
            &&& k == a.len() && k < b.len() ==> rank is Before
            &&& k < a.len() && k == b.len() ==> rank is After
            &&& k < a.len() && k < b.len() && folded(a[k], ci) < folded(b[k], ci) ==> rank is Before
            &&& k < a.len() && k < b.len() && folded(a[k], ci) > folded(b[k], ci) ==> rank is After
        }),
{
    lemma_skip_equal(a, b, opts.case_insensitive, 0, k);
    if k < a.len() && k < b.len() {
        law_unit_order(a[k], b[k], opts.case_insensitive);
    }
}

proof fn lemma_skip_equal(a: Seq<u16>, b: Seq<u16>, ci: bool, i: int, k: int)
    requires
        plain_case(a, ci),
        plain_case(b, ci),
        0 <= i <= k <= a.len(),
        k <= b.len(),
        forall|j: int| i <= j < k ==> folded(#[trigger] a[j], ci) == folded(b[j], ci),
    ensures
        rank_from(a, b, i, i, ci, false) == rank_from(a, b, k, k, ci, false),
    decreases k - i,
{
    if i < k {
        law_unit_order(a[i], b[i], ci);
        lemma_skip_equal(a, b, ci, i + 1, k);
    }
}

/// Where case does not count, forced ordering decides ties by the code units: the string
/// with the lesser unit at the first place where they differ comes first.
pub proof fn law_forced_order(a: Seq<u16>, b: Seq<u16>, opts: CompareOptions, k: int)
    requires
        opts.forced_ordering,
        opts.case_insensitive || opts.numeric,
        string_rank(a, b, CompareOptions { forced_ordering: false, ..opts }) is Same,
        differ_at(a, b, k, false),
    ensures
        ({
            let rank = string_rank(a, b, opts);
            &&& k == a.len() && k == b.len() ==> rank is Same
            &&& k == a.len() && k < b.len() ==> rank is Before
            &&& k < a.len() && k == b.len() ==> rank is After
            &&& k < a.len() && k < b.len() && a[k] < b[k] ==> rank is Before
            &&& k < a.len() && k < b.len() && a[k] > b[k] ==> rank is After
        }),
{
    lemma_lexicographic_skip(unit_codes(a), unit_codes(b), 0, k);
}

proof fn lemma_lexicographic_skip(a: Seq<int>, b: Seq<int>, i: int, k: int)
    requires
        0 <= i <= k <= a.len(),
        k <= b.len(),
        forall|j: int| i <= j < k ==> #[trigger] a[j] == b[j],
    ensures
        lexicographic(a, b, i) == lexicographic(a, b, k),
    decreases k - i,
{
    if i < k {
        lemma_lexicographic_skip(a, b, i + 1, k);
    }
}

/// A string comes before those that it begins, under all options, unless its last number
/// goes on in them.
pub proof fn law_prefix_comes_first(a: Seq<u16>, b: Seq<u16>, opts: CompareOptions)
    requires
        a.len() < b.len(),
        b.take(a.len() as int) == a,
        !(opts.numeric && a.len() > 0 && digit_unit(a.last()) && digit_unit(b[a.len() as int])),
    ensures
        string_rank(a, b, opts) is Before,
{
    lemma_prefix_from(a, b, 0, opts);
}

proof fn lemma_prefix_from(a: Seq<u16>, b: Seq<u16>, i: int, opts: CompareOptions)
    requires
        0 <= i <= a.len() < b.len(),
        b.take(a.len() as int) == a,
        !(opts.numeric && a.len() > 0 && digit_unit(a.last()) && digit_unit(b[a.len() as int])),
    ensures
        rank_from(a, b, i, i, opts.case_insensitive, opts.numeric) is Before,
    decreases a.len() - i,
{
    if i < a.len() {
        assert(b.take(a.len() as int)[i] == b[i]);
        if opts.numeric && digit_unit(a[i]) {
            let e = digits_end(a, i);
            lemma_digits_end(a, i);
            lemma_run(a, i);
            if e == a.len() {
                assert(a.last() == a[e - 1]);
            }
            assert forall|j: int| i <= j < e implies #[trigger] a[j] == b[j] by {
                assert(b.take(a.len() as int)[j] == b[j]);
            }
            if e < a.len() {
                assert(b.take(a.len() as int)[e] == b[e]);
            }
            assert forall|j: int| i <= j < e implies digit_unit(#[trigger] b[j]) by {
                assert(digit_unit(a[j]) && a[j] == b[j]);
            }
            lemma_same_run(b, i, e);
            lemma_same_significant(a, b, i, e);
            lemma_lexicographic_reflexive(unit_codes(significant(a, i)), 0);
            lemma_prefix_from(a, b, e, opts);
        } else {
            lemma_prefix_from(a, b, i + 1, opts);
        }
    }
}

/// All units from `i` to the end of the digits are digits, and the next one is not.
proof fn lemma_run(a: Seq<u16>, i: int)
    requires
        0 <= i <= a.len(),
    ensures
        i <= digits_end(a, i) <= a.len(),
        forall|j: int| i <= j < digits_end(a, i) ==> digit_unit(#[trigger] a[j]),
        digits_end(a, i) < a.len() ==> !digit_unit(a[digits_end(a, i)]),
    decreases a.len() - i,
{
    if i < a.len() && digit_unit(a[i]) {
        lemma_run(a, i + 1);
    }
}

proof fn lemma_same_run(b: Seq<u16>, i: int, e: int)
    requires
        0 <= i <= e <= b.len(),
    ensures
        (forall|j: int| i <= j < e ==> digit_unit(#[trigger] b[j])) && (e < b.len() ==> !digit_unit(
            b[e],
        )) ==> digits_end(b, i) == e,
    decreases e - i,
{
    if i < e {
        lemma_same_run(b, i + 1, e);
    }
}

proof fn lemma_same_significant(a: Seq<u16>, b: Seq<u16>, i: int, e: int)
    requires
        0 <= i <= e <= a.len(),
        e <= b.len(),
        digits_end(a, i) == e,
        digits_end(b, i) == e,
        forall|j: int| i <= j < e ==> #[trigger] a[j] == b[j],
    ensures
        significant(a, i) == significant(b, i),
{
    lemma_same_zeros(a, b, i, e);
    lemma_zeros_end(a, i, e);
    assert(significant(a, i) =~= significant(b, i));
}

proof fn lemma_same_zeros(a: Seq<u16>, b: Seq<u16>, i: int, e: int)
    requires
        0 <= i <= e <= a.len(),
        e <= b.len(),
        forall|j: int| i <= j < e ==> #[trigger] a[j] == b[j],
    ensures
        zeros_end(a, i, e) == zeros_end(b, i, e),
    decreases e - i,
{
    if i < e && a[i] == 48 {
        lemma_same_zeros(a, b, i + 1, e);
    }
}

/// The number that digits make.
pub open spec fn number_in(units: Seq<u16>, from: int, to: int) -> int
    decreases to - from,
{
    if to <= from {
        0
    } else {
        10 * number_in(units, from, to - 1) + units[to - 1] - 48
    }
}

/// The units from `from` to `to` are a number: digits, and none before or behind them.
pub open spec fn is_number(units: Seq<u16>, from: int, to: int) -> bool {
    &&& 0 <= from < to <= units.len()
    &&& forall|i: int| from <= i < to ==> 48 <= #[trigger] units[i] <= 57
    &&& from > 0 ==> !(48 <= units[from - 1] <= 57)
    &&& to < units.len() ==> !(48 <= units[to] <= 57)
}

/// With the numeric option numbers come in the order of their values, whatever zeros they
/// begin with: of two strings that agree up to a number, the one with the lesser number
/// comes first.
pub proof fn law_numbers_decide(
    a: Seq<u16>,
    b: Seq<u16>,
    opts: CompareOptions,
    i: int,
    a_end: int,
    b_end: int,
)
    requires
        opts.numeric,
        is_number(a, i, a_end),
        is_number(b, i, b_end),
        a.take(i) == b.take(i),
    ensures
        number_in(a, i, a_end) < number_in(b, i, b_end) ==> string_rank(a, b, opts) is Before,
        number_in(a, i, a_end) > number_in(b, i, b_end) ==> string_rank(a, b, opts) is After,
        number_in(a, i, a_end) == number_in(b, i, b_end) && a_end == a.len() && b_end == b.len()
            && !opts.forced_ordering ==> string_rank(a, b, opts) is Same,
{
    lemma_skip_to_number(a, b, 0, i, opts);
    lemma_same_run(a, i, a_end);
    lemma_same_run(b, i, b_end);
    assert(digits_end(a, i) == a_end);
    assert(digits_end(b, i) == b_end);
    lemma_significant_number(a, i, a_end);
    lemma_significant_number(b, i, b_end);
    let sa = significant(a, i);
    let sb = significant(b, i);
    lemma_digits_rank(sa, sb);
    if digits_rank(sa, sb) == Rank::Same && a_end == a.len() && b_end == b.len() {
        assert(rank_from(a, b, a_end, b_end, opts.case_insensitive, true) == Rank::Same);
    }
}

proof fn lemma_skip_to_number(a: Seq<u16>, b: Seq<u16>, k: int, i: int, opts: CompareOptions)
    requires
        opts.numeric,
        0 <= k <= i < a.len(),
        i < b.len(),
        a.take(i) == b.take(i),
        i > 0 ==> !digit_unit(a[i - 1]),
    ensures
        rank_from(a, b, k, k, opts.case_insensitive, true) == rank_from(
            a,
            b,
            i,
            i,
            opts.case_insensitive,
            true,
        ),
    decreases i - k,
{
    if k < i {
        assert(a.take(i)[k] == a[k] && b.take(i)[k] == b[k]);
        if digit_unit(a[k]) {
            let e = digits_end(a, k);
            lemma_run(a, k);
            assert(e <= i - 1) by {
                if e > i - 1 {
                    assert(digit_unit(a[i - 1]));
                }
            }
            assert forall|j: int| k <= j < i implies #[trigger] a[j] == b[j] by {
                assert(a.take(i)[j] == a[j] && b.take(i)[j] == b[j]);
            }
            assert(a[e] == b[e]);
            assert forall|j: int| k <= j < e implies digit_unit(#[trigger] b[j]) by {
                assert(digit_unit(a[j]) && a[j] == b[j]);
            }
            lemma_same_run(b, k, e);
            lemma_digits_end(a, k);
            lemma_same_significant(a, b, k, e);
            lemma_lexicographic_reflexive(unit_codes(significant(a, k)), 0);
            lemma_skip_to_number(a, b, e, i, opts);
        } else {
            lemma_skip_to_number(a, b, k + 1, i, opts);
        }
    }
}

/// Digits without a leading zero.
spec fn is_significant(digits: Seq<u16>) -> bool {
    &&& forall|i: int| 0 <= i < digits.len() ==> 48 <= #[trigger] digits[i] <= 57
    &&& digits.len() > 0 ==> digits[0] != 48
}

spec fn value_of(digits: Seq<u16>) -> int {
    number_in(digits, 0, digits.len() as int)
}

proof fn lemma_significant_number(units: Seq<u16>, i: int, e: int)
    requires
        0 <= i <= e <= units.len(),
        digits_end(units, i) == e,
        forall|j: int| i <= j < e ==> 48 <= #[trigger] units[j] <= 57,
    ensures
        is_significant(significant(units, i)),
        value_of(significant(units, i)) == number_in(units, i, e),
{
    let z = zeros_end(units, i, e);
    lemma_zeros_end(units, i, e);
    lemma_zeros(units, i, e);
    let digits = significant(units, i);
    lemma_number_after_zeros(units, i, z, e);
    lemma_number_moved(units, z, e, digits, e);
}

proof fn lemma_zeros(units: Seq<u16>, i: int, e: int)
    requires
        0 <= i <= e <= units.len(),
    ensures
        i <= zeros_end(units, i, e) <= e,
        forall|j: int| i <= j < zeros_end(units, i, e) ==> #[trigger] units[j] == 48,
        zeros_end(units, i, e) < e ==> units[zeros_end(units, i, e)] != 48,
    decreases e - i,
{
    if i < e && units[i] == 48 {
        lemma_zeros(units, i + 1, e);
    }
}

proof fn lemma_number_after_zeros(units: Seq<u16>, i: int, z: int, e: int)
    requires
        0 <= i <= z <= e <= units.len(),
        forall|j: int| i <= j < z ==> #[trigger] units[j] == 48,
    ensures
        number_in(units, i, e) == number_in(units, z, e),
    decreases e - i,
{
    if i < e {
        if z < e {
            lemma_number_after_zeros(units, i, z, e - 1);
        } else {
            assert(units[e - 1] == 48);
            lemma_number_after_zeros(units, i, e - 1, e - 1);
        }
    }
}

proof fn lemma_number_moved(units: Seq<u16>, z: int, e: int, digits: Seq<u16>, to: int)
    requires
        0 <= z <= to <= e <= units.len(),
        digits == units.subrange(z, e),
    ensures
        number_in(units, z, to) == number_in(digits, 0, to - z),
    decreases to - z,
{
    if z < to {
        lemma_number_moved(units, z, e, digits, to - 1);
    }
}

/// A number with `n` digits is below the power of ten.
spec fn ten_to(n: int) -> int
    decreases n,
{
    if n <= 0 {
        1
    } else {
        10 * ten_to(n - 1)
    }
}

proof fn lemma_value_bounds(digits: Seq<u16>, n: int)
    requires
        is_significant(digits),
        0 <= n <= digits.len(),
    ensures
        0 <= number_in(digits, 0, n) < ten_to(n),
        n > 0 ==> number_in(digits, 0, n) >= ten_to(n - 1),
    decreases n,
{
    if n > 0 {
        lemma_value_bounds(digits, n - 1);
        assert(48 <= digits[n - 1] <= 57);
        if n == 1 {
            assert(number_in(digits, 0, 0) == 0);
            assert(ten_to(0) == 1);
            assert(digits[0] != 48);
        }
    }
}

proof fn lemma_ten_to_grows(m: int, n: int)
    requires
        0 <= m <= n,
    ensures
        1 <= ten_to(m) <= ten_to(n),
    decreases n,
{
    if n > m {
        lemma_ten_to_grows(m, n - 1);
    } else if m > 0 {
        lemma_ten_to_grows(m - 1, n - 1);
    }
}

proof fn lemma_digits_rank(a: Seq<u16>, b: Seq<u16>)
    requires
        is_significant(a),
        is_significant(b),
    ensures
        value_of(a) < value_of(b) ==> digits_rank(a, b) is Before,
        value_of(a) > value_of(b) ==> digits_rank(a, b) is After,
        value_of(a) == value_of(b) ==> digits_rank(a, b) is Same,
{
    let (m, n) = (a.len() as int, b.len() as int);
    lemma_value_bounds(a, m);
    lemma_value_bounds(b, n);
    if m < n {
        lemma_ten_to_grows(m, n - 1);
    } else if n < m {
        lemma_ten_to_grows(n, m - 1);
    } else {
        lemma_equal_lengths(a, b, 0);
    }
}

proof fn lemma_equal_lengths(a: Seq<u16>, b: Seq<u16>, i: int)
    requires
        is_significant(a),
        is_significant(b),
        a.len() == b.len(),
        0 <= i <= a.len(),
        number_in(a, 0, i) == number_in(b, 0, i),
    ensures
        value_of(a) < value_of(b) ==> lexicographic(unit_codes(a), unit_codes(b), i) is Before,
        value_of(a) > value_of(b) ==> lexicographic(unit_codes(a), unit_codes(b), i) is After,
        value_of(a) == value_of(b) ==> lexicographic(unit_codes(a), unit_codes(b), i) is Same,
    decreases a.len() - i,
{
    if i < a.len() {
        assert(48 <= a[i] <= 57 && 48 <= b[i] <= 57);
        assert(number_in(a, 0, i + 1) == 10 * number_in(a, 0, i) + a[i] - 48);
        assert(number_in(b, 0, i + 1) == 10 * number_in(b, 0, i) + b[i] - 48);
        if a[i] == b[i] {
            lemma_equal_lengths(a, b, i + 1);
        } else if a[i] < b[i] {
            lemma_difference_stays(a, b, i + 1);
        } else {
            lemma_difference_stays(b, a, i + 1);
        }
    }
}

proof fn lemma_difference_stays(a: Seq<u16>, b: Seq<u16>, i: int)
    requires
        is_significant(a),
        is_significant(b),
        a.len() == b.len(),
        0 <= i <= a.len(),
        number_in(a, 0, i) < number_in(b, 0, i),
    ensures
        value_of(a) < value_of(b),
    decreases a.len() - i,
{
    if i < a.len() {
        assert(48 <= a[i] <= 57 && 48 <= b[i] <= 57);
        assert(number_in(a, 0, i + 1) == 10 * number_in(a, 0, i) + a[i] - 48);
        assert(number_in(b, 0, i + 1) == 10 * number_in(b, 0, i) + b[i] - 48);
        lemma_difference_stays(a, b, i + 1);
    }
}

/// What each bit of a mask of options stands for.
pub proof fn law_option_bits(options: u32)
    ensures
        options_of(options).case_insensitive <==> options % 2 == 1,
        options_of(options).backwards <==> options / 4 % 2 == 1,
        options_of(options).anchored <==> options / 8 % 2 == 1,
        options_of(options).numeric <==> options / 64 % 2 == 1,
        options_of(options).forced_ordering <==> options / 512 % 2 == 1,
{
    assert((options & 1 != 0 <==> options % 2 == 1) && (options & 4 != 0 <==> options / 4 % 2 == 1)
        && (options & 8 != 0 <==> options / 8 % 2 == 1) && (options & 64 != 0 <==> options / 64 % 2
        == 1) && (options & 512 != 0 <==> options / 512 % 2 == 1)) by (bit_vector);
}

/// The same units stand somewhere, exactly or but for the case of ASCII letters.
pub open spec fn occurs_at(hay: Seq<u16>, needle: Seq<u16>, at: int, case_insensitive: bool) -> bool {
    &&& 0 <= at
    &&& at + needle.len() <= hay.len()
    &&& forall|k: int|
        0 <= k < needle.len() ==> folded(#[trigger] needle[k], case_insensitive) == folded(
            hay[at + k],
            case_insensitive,
        )
}

/// What stands somewhere is found there; where case does not count this is stated of
/// ASCII.
pub proof fn law_occurrence(hay: Seq<u16>, needle: Seq<u16>, at: int, case_insensitive: bool)
    requires
        plain_case(hay, case_insensitive),
        plain_case(needle, case_insensitive),
    ensures
        units_at(hay, needle, at, case_insensitive) <==> occurs_at(
            hay,
            needle,
            at,
            case_insensitive,
        ),
        !case_insensitive ==> (units_at(hay, needle, at, case_insensitive) <==> 0 <= at && at
            + needle.len() <= hay.len() && hay.subrange(at, at + needle.len()) == needle),
{
    let ci = case_insensitive;
    if 0 <= at && at + needle.len() <= hay.len() {
        assert forall|k: int| 0 <= k < needle.len() implies same_unit(
            #[trigger] hay[at + k],
            needle[k],
            ci,
        ) == (folded(needle[k], ci) == folded(hay[at + k], ci)) by {
            law_unit_order(hay[at + k], needle[k], ci);
        }
        if occurs_at(hay, needle, at, ci) {
            assert forall|k: int| 0 <= k < needle.len() implies same_unit(
                #[trigger] hay[at + k],
                needle[k],
                ci,
            ) by {
                assert(folded(needle[k], ci) == folded(hay[at + k], ci));
            }
        }
        if units_at(hay, needle, at, ci) {
            assert forall|k: int| 0 <= k < needle.len() implies folded(#[trigger] needle[k], ci)
                == folded(hay[at + k], ci) by {
                assert(same_unit(hay[at + k], needle[k], ci));
            }
        }
        if !ci {
            let part = hay.subrange(at, at + needle.len());
            if units_at(hay, needle, at, ci) {
                assert forall|k: int| 0 <= k < needle.len() implies part[k] == needle[k] by {
                    assert(same_unit(hay[at + k], needle[k], ci));
                }
                assert(part =~= needle);
            }
            if part == needle {
                assert forall|k: int| 0 <= k < needle.len() implies same_unit(
                    #[trigger] hay[at + k],
                    needle[k],
                    ci,
                ) by {
                    assert(part[k] == hay[at + k]);
                }
            }
        }
    }
}

/// A search gives a place where the needle stands, and none before it, or backwards none
/// behind it. It gives nothing only if the needle is empty or stands nowhere. An anchored
/// search looks at the start alone, or backwards at the end.
pub proof fn law_search(
    hay: Seq<u16>,
    needle: Seq<u16>,
    opts: CompareOptions,
    found: Option<usize>,
    at: int,
)
    requires
        search_result(hay, needle, opts, found),
        plain_case(hay, opts.case_insensitive),
        plain_case(needle, opts.case_insensitive),
    ensures
        ({
            let ci = opts.case_insensitive;
            &&& needle.len() == 0 ==> found is None
            &&& found matches Some(start) ==> occurs_at(hay, needle, start as int, ci)
            &&& needle.len() > 0 && !opts.anchored && occurs_at(hay, needle, at, ci) ==> (
            found matches Some(start) && (if opts.backwards {
                at <= start
            } else {
                start <= at
            }))
            &&& opts.anchored && !opts.backwards ==> (found matches Some(start) ==> start == 0)
            &&& opts.anchored && opts.backwards ==> (found matches Some(start) ==> start
                + needle.len() == hay.len())
            &&& needle.len() > 0 && opts.anchored && !opts.backwards && occurs_at(
                hay,
                needle,
                0,
                ci,
            ) ==> found is Some
            &&& needle.len() > 0 && opts.anchored && opts.backwards && occurs_at(
                hay,
                needle,
                hay.len() - needle.len(),
                ci,
            ) ==> found is Some
        }),
{
    let ci = opts.case_insensitive;
    law_occurrence(hay, needle, at, ci);
    law_occurrence(hay, needle, 0, ci);
    law_occurrence(hay, needle, hay.len() - needle.len(), ci);
    if let Some(start) = found {
        law_occurrence(hay, needle, start as int, ci);
    }
}

/// A string with all matches of a target replaced.
pub open spec fn with_replaced(
    src: Seq<u16>,
    target: Seq<u16>,
    replacement: Seq<u16>,
    opts: CompareOptions,
) -> Seq<u16> {
    replaced_from(
        src,
        matches_to_replace(src, target, opts),
        0,
        target.len() as int,
        replacement,
    )
}

/// Replacing goes from match to match: what comes before the first match stays, the match
/// is replaced, and the rest is treated in the same way; backwards it goes from the last
/// match on. A string without a match stays as it is. An anchored search replaces one match
/// at most.
pub proof fn law_replace(
    src: Seq<u16>,
    target: Seq<u16>,
    replacement: Seq<u16>,
    opts: CompareOptions,
    found: Option<usize>,
)
    requires
        search_result(src, target, opts, found),
    ensures
        ({
            let all = with_replaced(src, target, replacement, opts);
            match found {
                None => all == src,
                Some(at) => {
                    let end = at + target.len();
                    if opts.anchored {
                        all == src.take(at as int) + replacement + src.skip(end)
                    } else if opts.backwards {
                        all == with_replaced(src.take(at as int), target, replacement, opts)
                            + replacement + src.skip(end)
                    } else {
                        all == src.take(at as int) + replacement + with_replaced(
                            src.skip(end),
                            target,
                            replacement,
                            opts,
                        )
                    }
                },
            }
        }),
{
    let ci = opts.case_insensitive;
    let n = target.len() as int;
    let len = src.len() as int;
    if n == 0 || n > len {
        assert(src.skip(0) =~= src);
    } else if opts.anchored {
        assert(src.skip(0) =~= src);
        if let Some(at) = found {
            let starts = matches_to_replace(src, target, opts);
            assert(starts =~= seq![at as int]);
            assert(starts.drop_first() =~= Seq::<int>::empty());
            assert(src.subrange(0, at as int) =~= src.take(at as int));
            assert(replaced_from(src, starts.drop_first(), at + n, n, replacement) == src.skip(
                at + n,
            ));
        }
    } else if opts.backwards {
        match found {
            None => {
                lemma_no_backward_match(src, target, ci, len);
                assert(src.skip(0) =~= src);
            },
            Some(at) => {
                lemma_backward_to(src, target, ci, len, at as int);
                let front = src.take(at as int);
                let before = backward_matches(src, target, ci, at as int);
                lemma_backward_taken(src, target, ci, at as int, at as int);
                assert(matches_to_replace(front, target, opts) =~= before);
                lemma_backward_in_order(src, target, ci, at as int);
                lemma_replaced_push(src, before, 0, n, replacement, at as int);
            },
        }
    } else {
        match found {
            None => {
                lemma_no_forward_match(src, target, ci, 0);
                assert(src.skip(0) =~= src);
            },
            Some(at) => {
                let end = at + n;
                lemma_forward_to(src, target, ci, 0, at as int);
                let rest = src.skip(end);
                let starts = forward_matches(src, target, ci, 0);
                let later = forward_matches(src, target, ci, end);
                assert(starts == seq![at as int] + later);
                assert(starts.drop_first() =~= later);
                assert(src.subrange(0, at as int) =~= src.take(at as int));
                lemma_forward_shifted(src, target, ci, end, end);
                lemma_forward_in_order(src, target, ci, end);
                lemma_replaced_shifted(src, later, end, end, n, replacement);
                if n > rest.len() {
                    assert(forward_matches(rest, target, ci, 0) =~= Seq::empty());
                }
                assert(matches_to_replace(rest, target, opts) =~= shifted_by(later, end));
            },
        }
    }
}

spec fn shifted_by(starts: Seq<int>, by: int) -> Seq<int> {
    Seq::new(starts.len(), |i: int| starts[i] - by)
}

proof fn lemma_no_forward_match(src: Seq<u16>, target: Seq<u16>, ci: bool, from: int)
    requires
        0 <= from,
        target.len() > 0,
        forall|s: int| !#[trigger] units_at(src, target, s, ci),
    ensures
        forward_matches(src, target, ci, from) == Seq::<int>::empty(),
    decreases src.len() - from,
{
    if from + target.len() <= src.len() {
        lemma_no_forward_match(src, target, ci, from + 1);
    }
}

proof fn lemma_no_backward_match(src: Seq<u16>, target: Seq<u16>, ci: bool, end: int)
    requires
        target.len() > 0,
        forall|s: int| !#[trigger] units_at(src, target, s, ci),
    ensures
        backward_matches(src, target, ci, end) == Seq::<int>::empty(),
    decreases end,
{
    if end >= target.len() {
        lemma_no_backward_match(src, target, ci, end - 1);
    }
}

proof fn lemma_forward_to(src: Seq<u16>, target: Seq<u16>, ci: bool, from: int, at: int)
    requires
        0 <= from <= at,
        target.len() > 0,
        units_at(src, target, at, ci),
        forall|s: int| #[trigger] units_at(src, target, s, ci) ==> at <= s,
    ensures
        forward_matches(src, target, ci, from) == seq![at] + forward_matches(
            src,
            target,
            ci,
            at + target.len(),
        ),
    decreases at - from,
{
    if from < at {
        lemma_forward_to(src, target, ci, from + 1, at);
    }
}

proof fn lemma_backward_to(src: Seq<u16>, target: Seq<u16>, ci: bool, end: int, at: int)
    requires
        at + target.len() <= end <= src.len(),
        target.len() > 0,
        units_at(src, target, at, ci),
        forall|s: int| #[trigger] units_at(src, target, s, ci) ==> s <= at,
    ensures
        backward_matches(src, target, ci, end) == backward_matches(src, target, ci, at).push(at),
    decreases end,
{
    if at + target.len() < end {
        lemma_backward_to(src, target, ci, end - 1, at);
    }
}

proof fn lemma_forward_shifted(src: Seq<u16>, target: Seq<u16>, ci: bool, from: int, by: int)
    requires
        0 <= by <= from,
        by <= src.len(),
        target.len() > 0,
    ensures
        forward_matches(src.skip(by), target, ci, from - by) == shifted_by(
            forward_matches(src, target, ci, from),
            by,
        ),
    decreases src.len() - from,
{
    let rest = src.skip(by);
    if from + target.len() <= src.len() {
        assert(units_at(src, target, from, ci) == units_at(rest, target, from - by, ci)) by {
            assert forall|k: int| 0 <= k < target.len() implies #[trigger] src[from + k]
                == rest[from - by + k] by {}
            if units_at(src, target, from, ci) {
                assert forall|k: int| 0 <= k < target.len() implies same_unit(
                    #[trigger] rest[from - by + k],
                    target[k],
                    ci,
                ) by {
                    assert(same_unit(src[from + k], target[k], ci));
                }
            }
            if units_at(rest, target, from - by, ci) {
                assert forall|k: int| 0 <= k < target.len() implies same_unit(
                    #[trigger] src[from + k],
                    target[k],
                    ci,
                ) by {
                    assert(same_unit(rest[from - by + k], target[k], ci));
                }
            }
        }
        if units_at(src, target, from, ci) {
            lemma_forward_shifted(src, target, ci, from + target.len(), by);
            assert(seq![from - by] + shifted_by(
                forward_matches(src, target, ci, from + target.len()),
                by,
            ) =~= shifted_by(forward_matches(src, target, ci, from), by));
        } else {
            lemma_forward_shifted(src, target, ci, from + 1, by);
        }
    } else {
        assert(shifted_by(Seq::empty(), by) =~= Seq::empty());
    }
}

proof fn lemma_backward_taken(src: Seq<u16>, target: Seq<u16>, ci: bool, end: int, by: int)
    requires
        0 <= end <= by <= src.len(),
        target.len() > 0,
    ensures
        backward_matches(src.take(by), target, ci, end) == backward_matches(src, target, ci, end),
    decreases end,
{
    let front = src.take(by);
    if end >= target.len() {
        let at = end - target.len();
        assert(units_at(src, target, at, ci) == units_at(front, target, at, ci)) by {
            assert forall|k: int| 0 <= k < target.len() implies #[trigger] src[at + k] == front[at
                + k] by {}
            if units_at(src, target, at, ci) {
                assert forall|k: int| 0 <= k < target.len() implies same_unit(
                    #[trigger] front[at + k],
                    target[k],
                    ci,
                ) by {
                    assert(same_unit(src[at + k], target[k], ci));
                }
            }
            if units_at(front, target, at, ci) {
                assert forall|k: int| 0 <= k < target.len() implies same_unit(
                    #[trigger] src[at + k],
                    target[k],
                    ci,
                ) by {
                    assert(same_unit(front[at + k], target[k], ci));
                }
            }
        }
        if units_at(src, target, at, ci) {
            lemma_backward_taken(src, target, ci, at, by);
        } else {
            lemma_backward_taken(src, target, ci, end - 1, by);
        }
    }
}

proof fn lemma_replaced_shifted(
    src: Seq<u16>,
    starts: Seq<int>,
    from: int,
    by: int,
    n: int,
    replacement: Seq<u16>,
)
    requires
        0 <= by <= from <= src.len(),
        n > 0,
        in_order(starts, from, n, src.len() as int),
    ensures
        replaced_from(src.skip(by), shifted_by(starts, by), from - by, n, replacement)
            == replaced_from(src, starts, from, n, replacement),
    decreases starts.len(),
{
    let rest = src.skip(by);
    let moved = shifted_by(starts, by);
    if starts.len() == 0 {
        assert(rest.skip(from - by) =~= src.skip(from));
    } else {
        assert(moved.drop_first() =~= shifted_by(starts.drop_first(), by));
        lemma_replaced_shifted(src, starts.drop_first(), starts[0] + n, by, n, replacement);
        assert(rest.subrange(from - by, moved[0]) =~= src.subrange(from, starts[0]));
    }
}

proof fn lemma_replaced_push(
    src: Seq<u16>,
    starts: Seq<int>,
    from: int,
    n: int,
    replacement: Seq<u16>,
    at: int,
)
    requires
        0 <= from <= at,
        at + n <= src.len(),
        n > 0,
        in_order(starts, from, n, at),
    ensures
        replaced_from(src, starts.push(at), from, n, replacement) == replaced_from(
            src.take(at),
            starts,
            from,
            n,
            replacement,
        ) + replacement + src.skip(at + n),
    decreases starts.len(),
{
    let more = starts.push(at);
    let front = src.take(at);
    if starts.len() == 0 {
        assert(more.drop_first() =~= Seq::<int>::empty());
        assert(front.skip(from) =~= src.subrange(from, at));
        assert(replaced_from(src, more.drop_first(), at + n, n, replacement) == src.skip(at + n));
    } else {
        let next = starts[0] + n;
        assert(more.drop_first() =~= starts.drop_first().push(at));
        lemma_replaced_push(src, starts.drop_first(), next, n, replacement, at);
        assert(front.subrange(from, starts[0]) =~= src.subrange(from, starts[0]));
        assert(src.subrange(from, starts[0]) + replacement + (replaced_from(
            front,
            starts.drop_first(),
            next,
            n,
            replacement,
        ) + replacement + src.skip(at + n)) =~= (src.subrange(from, starts[0]) + replacement
            + replaced_from(front, starts.drop_first(), next, n, replacement)) + replacement
            + src.skip(at + n));
    }
}

/// A line begins at the start of the string or behind the end of another line, and no line
/// ends between there and the range. The contents of the last line hold no end of a line
/// from the last unit of the range on, and end at the end of the string or at the end of
/// the line: a line feed, a carriage return, both together, or one of three other signs.
pub proof fn law_lines(units: Seq<u16>, location: int, length: int)
    requires
        0 <= location,
        0 <= length,
        location + length <= units.len(),
    ensures
        ({
            let (start, end, contents_end) = line_bounds(units, location, length);
            let last = if length > 0 {
                location + length - 1
            } else {
                location
            };
            let signs = set![0x0au16, 0x0d, 0x85, 0x2028, 0x2029];
            &&& 0 <= start <= location
            &&& start > 0 ==> signs.contains(units[start - 1])
            &&& forall|k: int|
                start <= k < location ==> !signs.contains(#[trigger] units[k]) || (units[k] == 0x0d
                    && k + 1 == location < units.len() && units[location] == 0x0a)
            &&& forall|k: int|
                last <= k < contents_end ==> !signs.contains(#[trigger] units[k])
            &&& contents_end <= end <= units.len()
            &&& contents_end == end ==> end == units.len()
            &&& contents_end < end ==> {
                &&& signs.contains(units[contents_end])
                &&& end - contents_end == if units[contents_end] == 0x0d && contents_end + 1
                    < units.len() && units[contents_end + 1] == 0x0a {
                    2int
                } else {
                    1
                }
            }
        }),
{
    lemma_line_start(units, location, location);
    lemma_next_delimiter(units, last_of_range(location, length));
}

proof fn lemma_line_start(units: Seq<u16>, r: int, p: int)
    requires
        0 <= p <= r <= units.len(),
    ensures
        0 <= line_start(units, r, p) <= p,
        line_start(units, r, p) > 0 ==> line_breaks_before(units, r, line_start(units, r, p)),
        forall|k: int|
            line_start(units, r, p) <= k < p ==> !line_breaks_before(units, r, k + 1) && (
            #[trigger] units[k] == units[k]),
    decreases p,
{
    if p > 0 && !line_breaks_before(units, r, p) {
        lemma_line_start(units, r, p - 1);
    }
}

proof fn lemma_next_delimiter(units: Seq<u16>, p: int)
    requires
        0 <= p <= units.len(),
    ensures
        p <= next_delimiter(units, p) <= units.len(),
        forall|k: int| p <= k < next_delimiter(units, p) ==> !line_delimiter(#[trigger] units[k]),
        next_delimiter(units, p) < units.len() ==> line_delimiter(units[next_delimiter(units, p)]),
    decreases units.len() - p,
{
    if p < units.len() && !line_delimiter(units[p]) {
        lemma_next_delimiter(units, p + 1);
    }
}

/// A range is cut off at the end of a string: what is left of it are the places of the
/// string that it covers.
pub proof fn law_clipped(len: int, location: int, length: int, k: int)
    requires
        0 <= len,
        0 <= location,
        0 <= length,
    ensures
        ({
            let (start, end) = clipped(len, location, length);
            &&& 0 <= start <= end <= len
            &&& start <= k < end <==> location <= k < location + length && k < len
        }),
{
}

/// What comes before is less.
pub proof fn law_ordering(rank: Rank)
    ensures
        ordering_of(rank) == Ordering::Less <==> rank is Before,
        ordering_of(rank) == Ordering::Equal <==> rank is Same,
        ordering_of(rank) == Ordering::Greater <==> rank is After,
{
}

} // verus!
