//! `NSDateFormatter`: date format patterns, formatting and parsing of dates.
use crate::civil;
use crate::civil::{civil_to_timestamp_i64, days_in_month, floor_mod, timestamp_to_calendar_date_i64, CivilTime};
use crate::text;
use crate::text::{chars_of, copy_chars, is_ascii_alphabetic, is_ascii_digit, is_white_space, padded_chars, parse_digits, push_all, slice_chars, starts_with_ignore_case};
use crate::ns_time_zone;
use crate::ns_time_zone::{seconds_from_gmt_at_unix, seconds_from_gmt_for_wall_clock, LocalZone};
use crate::objc::{Environment, Id};
use vstd::prelude::*;

verus! {

/// One element of a date format pattern.
pub enum FormatToken {
    /// A run of one pattern letter and its length.
    Field(char, usize),
    Literal(Vec<char>),
}

#[verifier::ext_equal]
pub enum TokenView {
    Field(char, int),
    Literal(Seq<char>),
}

impl View for FormatToken {
    type V = TokenView;

    open spec fn view(&self) -> TokenView {
        match self {
            FormatToken::Field(c, n) => TokenView::Field(*c, *n as int),
            FormatToken::Literal(s) => TokenView::Literal(s@),
        }
    }
}

pub open spec fn token_views(tokens: Seq<FormatToken>) -> Seq<TokenView> {
    Seq::new(tokens.len(), |i: int| tokens[i]@)
}

/// How many characters from `i` on are equal to `c`.
pub open spec fn run_length(chars: Seq<char>, i: int, c: char) -> int
    decreases chars.len() - i,
{
    if 0 <= i < chars.len() && chars[i] == c {
        1 + run_length(chars, i + 1, c)
    } else {
        0
    }
}

pub open spec fn flushed(literal: Seq<char>) -> Seq<TokenView> {
    if literal.len() == 0 {
        Seq::empty()
    } else {
        seq![TokenView::Literal(literal)]
    }
}

pub open spec fn quote_at(chars: Seq<char>, i: int) -> bool {
    0 <= i < chars.len() && chars[i] == '\''
}

/// The tokens of the pattern from `i` on, where `literal` is the literal text
/// read since the last field and `quoted` says whether `i` is inside quotes.
/// Two quotes in a row stand for a quote, inside quotes and outside.
pub open spec fn pattern_tokens(
    chars: Seq<char>,
    i: int,
    literal: Seq<char>,
    quoted: bool,
) -> Seq<TokenView>
    decreases chars.len() - i,
{
    if i < 0 || i >= chars.len() {
        flushed(literal)
    } else if chars[i] == '\'' {
        if quote_at(chars, i + 1) {
            pattern_tokens(chars, i + 2, literal.push('\''), quoted)
        } else {
            pattern_tokens(chars, i + 1, literal, !quoted)
        }
    } else if !quoted && text::ascii_alphabetic(chars[i]) {
        let n = 1 + run_length(chars, i + 1, chars[i]);
        proof {
            lemma_run_length(chars, i + 1, chars[i]);
        }
        flushed(literal).push(TokenView::Field(chars[i], n)) + pattern_tokens(
            chars,
            i + n,
            Seq::empty(),
            false,
        )
    } else {
        pattern_tokens(chars, i + 1, literal.push(chars[i]), quoted)
    }
}

pub proof fn lemma_run_length(chars: Seq<char>, i: int, c: char)
    requires
        0 <= i <= chars.len(),
    ensures
        0 <= run_length(chars, i, c) <= chars.len() - i,
    decreases chars.len() - i,
{
    if i < chars.len() && chars[i] == c {
        lemma_run_length(chars, i + 1, c);
    }
}

fn run_at(chars: &Vec<char>, i: usize, c: char) -> (n: usize)
    requires
        i <= chars@.len(),
    ensures
        n == run_length(chars@, i as int, c),
        i + n <= chars@.len(),
{
    let mut n: usize = 0;
    while i + n < chars.len() && chars[i + n] == c
        invariant
            i + n <= chars.len(),
            n + run_length(chars@, i + n, c) == run_length(chars@, i as int, c),
        decreases chars@.len() - i - n,
    {
        n = n + 1;
    }
    n
}

/// Splits a date format pattern into fields and literal text.
pub fn tokenize_date_format(chars: &Vec<char>) -> (tokens: Vec<FormatToken>)
    ensures
        token_views(tokens@) == pattern_tokens(chars@, 0, Seq::empty(), false),
{
    let mut tokens: Vec<FormatToken> = Vec::new();
    let mut literal: Vec<char> = Vec::new();
    let mut quoted: bool = false;
    let mut i: usize = 0;
    assert(token_views(tokens@) + pattern_tokens(chars@, 0, literal@, false) =~= pattern_tokens(
        chars@,
        0,
        Seq::empty(),
        false,
    ));
    while i < chars.len()
        invariant
            i <= chars@.len(),
            token_views(tokens@) + pattern_tokens(chars@, i as int, literal@, quoted)
                == pattern_tokens(chars@, 0, Seq::empty(), false),
        decreases chars@.len() - i,
    {
        let c: char = chars[i];
        if c == '\'' {
            if i + 1 < chars.len() && chars[i + 1] == '\'' {
                literal.push('\'');
                i = i + 2;
            } else {
                quoted = !quoted;
                i = i + 1;
            }
        } else if !quoted && is_ascii_alphabetic(c) {
            let n: usize = 1 + run_at(chars, i + 1, c);
            let ghost before = token_views(tokens@);
            let ghost rest = pattern_tokens(chars@, i + n, Seq::empty(), false);
            let ghost text = literal@;
            if literal.len() > 0 {
                tokens.push(FormatToken::Literal(literal));
            }
            tokens.push(FormatToken::Field(c, n));
            literal = Vec::new();
            i = i + n;
            proof {
                assert(token_views(tokens@) =~= before + flushed(text).push(
                    TokenView::Field(c, n as int),
                ));
                assert(before + (flushed(text).push(TokenView::Field(c, n as int)) + rest)
                    =~= token_views(tokens@) + rest);
                assert(literal@ =~= Seq::empty());
            }
        } else {
            literal.push(c);
            i = i + 1;
        }
    }
    let ghost before = token_views(tokens@);
    let ghost text = literal@;
    if literal.len() > 0 {
        tokens.push(FormatToken::Literal(literal));
    }
    assert(token_views(tokens@) =~= before + flushed(text));
    tokens
}

pub open spec fn signed_padded(v: int, width: int) -> Seq<char> {
    if v < 0 {
        seq!['-'] + text::padded((-v) as nat, width as nat)
    } else {
        text::padded(v as nat, width as nat)
    }
}

/// A number with zeros in front; a sign does not count for the width.
pub fn pad_number(value: i64, width: usize) -> (text: Vec<char>)
    requires
        value > i64::MIN,
    ensures
        text@ == signed_padded(value as int, width as int),
{
    if value < 0 {
        let mut out: Vec<char> = Vec::new();
        out.push('-');
        let digits = padded_chars((-value) as u64, width);
        push_all(&mut out, &digits);
        assert(out@ =~= seq!['-'] + digits@);
        out
    } else {
        padded_chars(value as u64, width)
    }
}

pub open spec fn magnitude(v: int) -> int {
    if v < 0 {
        -v
    } else {
        v
    }
}

/// An offset from GMT as sign, hours and minutes.
pub open spec fn offset_digits(offset: int, colon: bool) -> Seq<char> {
    let abs = magnitude(offset);
    seq![if offset < 0 { '-' } else { '+' }] + text::padded((abs / 3600) as nat, 2) + (if colon {
        seq![':']
    } else {
        Seq::empty()
    }) + text::padded((abs % 3600 / 60) as nat, 2)
}

pub fn format_offset_digits(offset: i32, colon: bool) -> (text: Vec<char>)
    ensures
        text@ == offset_digits(offset as int, colon),
{
    let mut out: Vec<char> = Vec::new();
    let wide: i64 = offset as i64;
    let abs: u64 = if wide < 0 {
        (-wide) as u64
    } else {
        wide as u64
    };
    out.push(if offset < 0 {
        '-'
    } else {
        '+'
    });
    let hours = padded_chars(abs / 3600, 2);
    push_all(&mut out, &hours);
    if colon {
        out.push(':');
    }
    let minutes = padded_chars(abs % 3600 / 60, 2);
    push_all(&mut out, &minutes);
    assert(out@ =~= offset_digits(offset as int, colon));
    out
}

pub open spec fn month_names() -> Seq<Seq<char>> {
    seq![
        "January"@,
        "February"@,
        "March"@,
        "April"@,
        "May"@,
        "June"@,
        "July"@,
        "August"@,
        "September"@,
        "October"@,
        "November"@,
        "December"@,
    ]
}

pub open spec fn month_abbreviations() -> Seq<Seq<char>> {
    seq![
        "Jan"@,
        "Feb"@,
        "Mar"@,
        "Apr"@,
        "May"@,
        "Jun"@,
        "Jul"@,
        "Aug"@,
        "Sep"@,
        "Oct"@,
        "Nov"@,
        "Dec"@,
    ]
}

pub open spec fn weekday_names() -> Seq<Seq<char>> {
    seq![
        "Sunday"@,
        "Monday"@,
        "Tuesday"@,
        "Wednesday"@,
        "Thursday"@,
        "Friday"@,
        "Saturday"@,
    ]
}

pub open spec fn weekday_abbreviations() -> Seq<Seq<char>> {
    seq!["Sun"@, "Mon"@, "Tue"@, "Wed"@, "Thu"@, "Fri"@, "Sat"@]
}

pub open spec fn half_day_names() -> Seq<Seq<char>> {
    seq!["AM"@, "PM"@]
}

pub open spec fn era_names() -> Seq<Seq<char>> {
    seq!["AD"@, "BC"@]
}

pub open spec fn name_views(names: Seq<Vec<char>>) -> Seq<Seq<char>> {
    Seq::new(names.len(), |i: int| names[i]@)
}

fn names_of(list: &[&str]) -> (names: Vec<Vec<char>>)
    ensures
        names@.len() == list@.len(),
        forall|i: int| 0 <= i < list@.len() ==> (#[trigger] names@[i])@ == list@[i]@,
{
    let mut out: Vec<Vec<char>> = Vec::new();
    let mut i: usize = 0;
    while i < list.len()
        invariant
            i <= list@.len(),
            out@.len() == i,
            forall|j: int| 0 <= j < i ==> (#[trigger] out@[j])@ == list@[j]@,
        decreases list@.len() - i,
    {
        out.push(chars_of(list[i]));
        i = i + 1;
    }
    out
}

fn months() -> (names: Vec<Vec<char>>)
    ensures
        name_views(names@) == month_names(),
{
    let names = names_of(
        &[
            "January",
            "February",
            "March",
            "April",
            "May",
            "June",
            "July",
            "August",
            "September",
            "October",
            "November",
            "December",
        ],
    );
    assert(name_views(names@) =~= month_names());
    names
}

fn short_months() -> (names: Vec<Vec<char>>)
    ensures
        name_views(names@) == month_abbreviations(),
{
    let names = names_of(
        &["Jan", "Feb", "Mar", "Apr", "May", "Jun", "Jul", "Aug", "Sep", "Oct", "Nov", "Dec"],
    );
    assert(name_views(names@) =~= month_abbreviations());
    names
}

fn weekdays() -> (names: Vec<Vec<char>>)
    ensures
        name_views(names@) == weekday_names(),
{
    let names = names_of(
        &["Sunday", "Monday", "Tuesday", "Wednesday", "Thursday", "Friday", "Saturday"],
    );
    assert(name_views(names@) =~= weekday_names());
    names
}

fn short_weekdays() -> (names: Vec<Vec<char>>)
    ensures
        name_views(names@) == weekday_abbreviations(),
{
    let names = names_of(&["Sun", "Mon", "Tue", "Wed", "Thu", "Fri", "Sat"]);
    assert(name_views(names@) =~= weekday_abbreviations());
    names
}

/// A local time, with what else a pattern can show of it.
pub struct LocalTime {
    pub civil: CivilTime,
    /// The fraction of the second times the `d`-th power of ten, rounded down,
    /// for `d` up to 9.
    pub fraction: Vec<i64>,
    /// Offset of the time zone from GMT in seconds.
    pub offset: i32,
    /// The name of that offset.
    pub zone_name: Vec<char>,
}

impl LocalTime {
    pub open spec fn wf(&self) -> bool {
        &&& self.fraction@.len() == 10
        &&& forall|d: int| 0 <= d < 10 ==> 0 <= #[trigger] self.fraction@[d]
        &&& 1 <= self.civil.month <= 12
        &&& 0 <= self.civil.hour < 24
        &&& 0 <= self.civil.minute < 60
        &&& 0 <= self.civil.second < 60
        &&& 1 <= self.civil.day <= 31
        &&& 0 <= self.civil.weekday < 7
        &&& 0 <= self.civil.year_day < 366
        &&& i64::MIN < self.civil.year
    }
}

pub open spec fn smaller(a: int, b: int) -> int {
    if a < b {
        a
    } else {
        b
    }
}

/// The text of a run of `n` letters `c`.
pub open spec fn field_text(c: char, n: int, t: &LocalTime) -> Seq<char> {
    let civil = t.civil;
    let two = smaller(n, 2);
    if c == 'y' || c == 'Y' || c == 'u' {
        if n == 2 {
            signed_padded(civil.year as int % 100, 2)
        } else {
            signed_padded(civil.year as int, n)
        }
    } else if c == 'M' || c == 'L' {
        if 1 <= n <= 2 {
            signed_padded(civil.month as int, n)
        } else if n == 3 {
            month_abbreviations()[civil.month - 1]
        } else {
            month_names()[civil.month - 1]
        }
    } else if c == 'd' {
        signed_padded(civil.day as int, two)
    } else if c == 'D' {
        signed_padded(civil.year_day + 1, smaller(n, 3))
    } else if c == 'H' {
        signed_padded(civil.hour as int, two)
    } else if c == 'k' {
        signed_padded(
            if civil.hour == 0 {
                24
            } else {
                civil.hour as int
            },
            two,
        )
    } else if c == 'h' {
        signed_padded(
            if civil.hour % 12 == 0 {
                12
            } else {
                civil.hour as int % 12
            },
            two,
        )
    } else if c == 'K' {
        signed_padded(civil.hour as int % 12, two)
    } else if c == 'm' {
        signed_padded(civil.minute as int, two)
    } else if c == 's' {
        signed_padded(civil.second as int, two)
    } else if c == 'S' {
        signed_padded(t.fraction@[smaller(n, 9)] as int, smaller(n, 9))
    } else if c == 'a' {
        if civil.hour < 12 {
            "AM"@
        } else {
            "PM"@
        }
    } else if c == 'E' {
        if n <= 3 {
            weekday_abbreviations()[civil.weekday as int]
        } else {
            weekday_names()[civil.weekday as int]
        }
    } else if c == 'G' {
        "AD"@
    } else if c == 'Z' {
        if 1 <= n <= 3 {
            offset_digits(t.offset as int, false)
        } else if n == 4 {
            if t.offset == 0 {
                "GMT"@
            } else {
                "GMT"@ + offset_digits(t.offset as int, true)
            }
        } else if t.offset == 0 {
            seq!['Z']
        } else {
            offset_digits(t.offset as int, true)
        }
    } else if c == 'z' {
        t.zone_name@
    } else {
        Seq::new(n as nat, |i: int| c)
    }
}

pub open spec fn token_text(token: TokenView, t: &LocalTime) -> Seq<char> {
    match token {
        TokenView::Literal(s) => s,
        TokenView::Field(c, n) => field_text(c, n, t),
    }
}

/// The texts of all tokens, one after the other.
pub open spec fn date_text(tokens: Seq<TokenView>, t: &LocalTime) -> Seq<char>
    decreases tokens.len(),
{
    if tokens.len() == 0 {
        Seq::empty()
    } else {
        date_text(tokens.drop_last(), t) + token_text(tokens.last(), t)
    }
}

fn name_at(names: &Vec<Vec<char>>, i: usize) -> (name: Vec<char>)
    requires
        i < names@.len(),
    ensures
        name@ == name_views(names@)[i as int],
{
    copy_chars(&names[i])
}

fn at_most(n: usize, limit: usize) -> (m: usize)
    ensures
        m == smaller(n as int, limit as int),
{
    if n < limit {
        n
    } else {
        limit
    }
}

fn zone_text(n: usize, offset: i32) -> (text: Vec<char>)
    ensures
        text@ == (if 1 <= n <= 3 {
            offset_digits(offset as int, false)
        } else if n == 4 {
            if offset == 0 {
                "GMT"@
            } else {
                "GMT"@ + offset_digits(offset as int, true)
            }
        } else if offset == 0 {
            seq!['Z']
        } else {
            offset_digits(offset as int, true)
        }),
{
    if 1 <= n && n <= 3 {
        format_offset_digits(offset, false)
    } else if n == 4 {
        let mut out = chars_of("GMT");
        if offset != 0 {
            let digits = format_offset_digits(offset, true);
            push_all(&mut out, &digits);
        }
        out
    } else if offset == 0 {
        let mut out: Vec<char> = Vec::new();
        out.push('Z');
        assert(out@ =~= seq!['Z']);
        out
    } else {
        format_offset_digits(offset, true)
    }
}

/// The text of one field.
pub fn format_field(c: char, n: usize, t: &LocalTime) -> (text: Vec<char>)
    requires
        t.wf(),
    ensures
        text@ == field_text(c, n as int, t),
{
    let civil = &t.civil;
    let two: usize = at_most(n, 2);
    if c == 'y' || c == 'Y' || c == 'u' {
        if n == 2 {
            pad_number(floor_mod(civil.year, 100), 2)
        } else {
            pad_number(civil.year, n)
        }
    } else if c == 'M' || c == 'L' {
        if 1 <= n && n <= 2 {
            pad_number(civil.month, n)
        } else if n == 3 {
            let names = short_months();
            assert(name_views(names@).len() == 12);
            name_at(&names, (civil.month - 1) as usize)
        } else {
            let names = months();
            assert(name_views(names@).len() == 12);
            name_at(&names, (civil.month - 1) as usize)
        }
    } else if c == 'd' {
        pad_number(civil.day, two)
    } else if c == 'D' {
        pad_number(civil.year_day + 1, at_most(n, 3))
    } else if c == 'H' {
        pad_number(civil.hour, two)
    } else if c == 'k' {
        pad_number(
            if civil.hour == 0 {
                24
            } else {
                civil.hour
            },
            two,
        )
    } else if c == 'h' {
        pad_number(
            if civil.hour % 12 == 0 {
                12
            } else {
                civil.hour % 12
            },
            two,
        )
    } else if c == 'K' {
        pad_number(civil.hour % 12, two)
    } else if c == 'm' {
        pad_number(civil.minute, two)
    } else if c == 's' {
        pad_number(civil.second, two)
    } else if c == 'S' {
        let digits: usize = at_most(n, 9);
        assert(0 <= t.fraction@[digits as int]);
        pad_number(t.fraction[digits], digits)
    } else if c == 'a' {
        if civil.hour < 12 {
            chars_of("AM")
        } else {
            chars_of("PM")
        }
    } else if c == 'E' {
        if n <= 3 {
            let names = short_weekdays();
            assert(name_views(names@).len() == 7);
            name_at(&names, civil.weekday as usize)
        } else {
            let names = weekdays();
            assert(name_views(names@).len() == 7);
            name_at(&names, civil.weekday as usize)
        }
    } else if c == 'G' {
        chars_of("AD")
    } else if c == 'Z' {
        zone_text(n, t.offset)
    } else if c == 'z' {
        copy_chars(&t.zone_name)
    } else {
        let mut out: Vec<char> = Vec::new();
        let mut i: usize = 0;
        while i < n
            invariant
                i <= n,
                out@ == Seq::new(i as nat, |i: int| c),
            decreases n - i,
        {
            out.push(c);
            i = i + 1;
            assert(out@ =~= Seq::new(i as nat, |i: int| c));
        }
        out
    }
}

/// Formats a local time by the tokens of a pattern.
pub fn format_local_time(tokens: &Vec<FormatToken>, t: &LocalTime) -> (text: Vec<char>)
    requires
        t.wf(),
    ensures
        text@ == date_text(token_views(tokens@), t),
{
    let mut out: Vec<char> = Vec::new();
    let mut i: usize = 0;
    let ghost views = token_views(tokens@);
    while i < tokens.len()
        invariant
            i <= tokens@.len(),
            t.wf(),
            views == token_views(tokens@),
            out@ == date_text(views.take(i as int), t),
        decreases tokens@.len() - i,
    {
        assert(views.take(i + 1).drop_last() =~= views.take(i as int));
        assert(views.take(i + 1).last() == tokens@[i as int]@);
        match &tokens[i] {
            FormatToken::Literal(s) => {
                push_all(&mut out, s);
            },
            FormatToken::Field(c, n) => {
                let piece = format_field(*c, *n, t);
                push_all(&mut out, &piece);
            },
        }
        i = i + 1;
    }
    assert(views.take(i as int) =~= views);
    out
}

/// The calendar fields of a second.
pub open spec fn civil_of(t: int) -> CivilTime {
    choose|c: CivilTime| civil::is_civil(c, t)
}

/// `a + b`, held to the range of the type.
pub open spec fn saturated_sum(a: int, b: int) -> int {
    if a + b > i64::MAX {
        i64::MAX as int
    } else if a + b < i64::MIN {
        i64::MIN as int
    } else {
        a + b
    }
}

pub fn saturating_offset(secs: i64, offset: i32) -> (sum: i64)
    ensures
        sum == saturated_sum(secs as int, offset as int),
{
    match secs.checked_add(offset as i64) {
        Some(sum) => sum,
        None => if offset > 0 {
            i64::MAX
        } else {
            i64::MIN
        },
    }
}

/// Formats the second `unix_secs` in a time zone with the given offset.
pub fn format_date(
    tokens: &Vec<FormatToken>,
    unix_secs: i64,
    fraction: Vec<i64>,
    offset: i32,
    zone_name: Vec<char>,
) -> (text: Vec<char>)
    requires
        fraction@.len() == 10,
        forall|d: int| 0 <= d < 10 ==> 0 <= #[trigger] fraction@[d],
    ensures
        text@ == date_text(
            token_views(tokens@),
            &(LocalTime {
                civil: civil_of(saturated_sum(unix_secs as int, offset as int)),
                fraction,
                offset,
                zone_name,
            }),
        ),
{
    let local: i64 = saturating_offset(unix_secs, offset);
    let civil = timestamp_to_calendar_date_i64(local);
    proof {
        civil::law_civil_time_is_unique(civil, civil_of(local as int), local as int, local as int);
        lemma_civil_bounds(civil, local as int);
    }
    let t = LocalTime { civil, fraction, offset, zone_name };
    format_local_time(tokens, &t)
}

proof fn lemma_civil_bounds(c: CivilTime, t: int)
    requires
        civil::is_civil(c, t),
        i64::MIN <= t <= i64::MAX,
    ensures
        0 <= c.year_day < 366,
        c.year > i64::MIN,
{
    crate::civil::lemma_days_before_month(c.year as int, c.month as int);
}


/// The fields that were read from a text.
#[derive(Clone, Copy, Debug, PartialEq, Eq, Structural)]
pub struct ParsedDate {
    pub year: i64,
    pub month: i64,
    pub day: i64,
    pub hour: i64,
    pub minute: i64,
    pub second: i64,
    /// The digits of the fraction of the second, as a number.
    pub fraction: i64,
    /// How many digits the fraction has.
    pub fraction_digits: usize,
    /// Whether the text said PM, if it named the half of the day.
    pub pm: Option<bool>,
    /// The offset from GMT, if the text gave one.
    pub offset: Option<i32>,
    pub hour_is_12h: bool,
}

pub open spec fn numeric_field(c: char, n: int) -> bool {
    ||| c == 'y' || c == 'Y' || c == 'u' || c == 'd' || c == 'D' || c == 'H' || c == 'k' || c == 'h'
    ||| c == 'K' || c == 'm' || c == 's' || c == 'S'
    ||| (c == 'M' || c == 'L') && n <= 2
}

/// Whether a field is written in digits.
pub fn is_numeric_field(c: char, n: usize) -> (b: bool)
    ensures
        b == numeric_field(c, n as int),
{
    match c {
        'y' | 'Y' | 'u' | 'd' | 'D' | 'H' | 'k' | 'h' | 'K' | 'm' | 's' | 'S' => true,
        'M' | 'L' => n <= 2,
        _ => false,
    }
}

/// Of the first `k` names, the longest that stands at `pos`; the first one of
/// those of equal length.
pub open spec fn best_name(names: Seq<Seq<char>>, input: Seq<char>, pos: int, k: int) -> Option<int>
    decreases k,
{
    if k <= 0 {
        None
    } else {
        let best = best_name(names, input, pos, k - 1);
        if text::stands_at(input, pos, names[k - 1]) && (best matches Some(i) ==> names[i].len() < names[k
            - 1].len()) {
            Some(k - 1)
        } else {
            best
        }
    }
}

/// The name that stands at `pos`: its index and the position behind it.
pub open spec fn name_match(names: Seq<Seq<char>>, input: Seq<char>, pos: int) -> Option<
    (int, int),
> {
    match best_name(names, input, pos, names.len() as int) {
        Some(i) => Some((i, pos + names[i].len())),
        None => None,
    }
}

/// The first list that has a name at `pos` decides.
pub open spec fn name_match_either(
    names: Seq<Seq<char>>,
    others: Seq<Seq<char>>,
    input: Seq<char>,
    pos: int,
) -> Option<(int, int)> {
    match name_match(names, input, pos) {
        Some(found) => Some(found),
        None => name_match(others, input, pos),
    }
}

pub proof fn lemma_best_name(names: Seq<Seq<char>>, input: Seq<char>, pos: int, k: int)
    requires
        0 <= k <= names.len(),
    ensures
        best_name(names, input, pos, k) matches Some(i) ==> 0 <= i < k && text::stands_at(
            input,
            pos,
            names[i],
        ),
        best_name(names, input, pos, k) is None ==> forall|i: int|
            0 <= i < k ==> !text::stands_at(input, pos, #[trigger] names[i]),
        best_name(names, input, pos, k) matches Some(i) ==> forall|j: int|
            0 <= j < k && text::stands_at(input, pos, #[trigger] names[j]) ==> names[j].len()
                <= names[i].len(),
    decreases k,
{
    if k > 0 {
        lemma_best_name(names, input, pos, k - 1);
    }
}

/// Looks for a name at `pos`, longer names first, without regard to case.
pub fn match_name(input: &Vec<char>, pos: usize, names: &Vec<Vec<char>>) -> (found: Option<
    (usize, usize),
>)
    requires
        pos <= input@.len(),
    ensures
        match found {
            Some((i, next)) => name_match(name_views(names@), input@, pos as int) == Some(
                (i as int, next as int),
            ) && i < names@.len() && pos <= next <= input@.len(),
            None => name_match(name_views(names@), input@, pos as int) is None,
        },
{
    let ghost views = name_views(names@);
    let mut best: Option<usize> = None;
    let mut k: usize = 0;
    while k < names.len()
        invariant
            k <= names@.len(),
            pos <= input@.len(),
            views == name_views(names@),
            match best {
                Some(i) => i < k && text::stands_at(input@, pos as int, views[i as int]) && best_name(
                    views,
                    input@,
                    pos as int,
                    k as int,
                ) == Some(i as int),
                None => best_name(views, input@, pos as int, k as int) is None,
            },
        decreases names@.len() - k,
    {
        assert(views[k as int] == names@[k as int]@);
        if starts_with_ignore_case(input, pos, &names[k]) {
            let longer = match best {
                Some(i) => {
                    assert(views[i as int] == names@[i as int]@);
                    names[i].len() < names[k].len()
                },
                None => true,
            };
            if longer {
                best = Some(k);
            }
        }
        k = k + 1;
    }
    match best {
        Some(i) => {
            assert(views[i as int] == names@[i as int]@);
            assert(pos + names@[i as int]@.len() <= input.len());
            Some((i, pos + names[i].len()))
        },
        None => None,
    }
}

fn match_name_either(
    input: &Vec<char>,
    pos: usize,
    names: &Vec<Vec<char>>,
    others: &Vec<Vec<char>>,
) -> (found: Option<(usize, usize)>)
    requires
        pos <= input@.len(),
    ensures
        match found {
            Some((i, next)) => name_match_either(
                name_views(names@),
                name_views(others@),
                input@,
                pos as int,
            ) == Some((i as int, next as int)) && (i < names@.len() || i < others@.len()) && pos
                <= next <= input@.len(),
            None => name_match_either(
                name_views(names@),
                name_views(others@),
                input@,
                pos as int,
            ) is None,
        },
{
    match match_name(input, pos, names) {
        Some(found) => Some(found),
        None => match_name(input, pos, others),
    }
}

/// Up to four digits with at most one colon after the first: where they end,
/// the digits, and how many of them stand before the colon.
pub open spec fn offset_scan(
    input: Seq<char>,
    p: int,
    digits: Seq<char>,
    colon: Option<int>,
) -> (int, Seq<char>, Option<int>)
    decreases input.len() - p,
{
    if 0 <= p < input.len() && digits.len() < 4 {
        if text::ascii_digit(input[p]) {
            offset_scan(input, p + 1, digits.push(input[p]), colon)
        } else if input[p] == ':' && colon is None && digits.len() > 0 {
            offset_scan(input, p + 1, digits, Some(digits.len() as int))
        } else {
            (p, digits, colon)
        }
    } else {
        (p, digits, colon)
    }
}

/// Hours and minutes of the digits of an offset.
pub open spec fn offset_fields(digits: Seq<char>, colon: Option<int>) -> Option<(int, int)> {
    match colon {
        Some(at) => Some((text::digits_value(digits.take(at)), text::digits_value(digits.skip(at)))),
        None => if digits.len() == 1 || digits.len() == 2 {
            Some((text::digits_value(digits), 0))
        } else if digits.len() == 4 {
            Some((text::digits_value(digits.take(2)), text::digits_value(digits.skip(2))))
        } else {
            None
        },
    }
}

/// An offset from GMT at `pos`, in seconds, and the position behind it.
pub open spec fn offset_match(input: Seq<char>, pos: int) -> Option<(int, int)> {
    let prefixed = text::stands_at(input, pos, "GMT"@) || text::stands_at(input, pos, "UTC"@);
    let p = if prefixed {
        pos + 3
    } else {
        pos
    };
    if !prefixed && p < input.len() && (input[p] == 'Z' || input[p] == 'z') {
        Some((0, p + 1))
    } else if p >= input.len() || (input[p] != '+' && input[p] != '-') {
        if prefixed {
            Some((0, p))
        } else {
            None
        }
    } else {
        let negative = input[p] == '-';
        let (q, digits, colon) = offset_scan(input, p + 1, Seq::empty(), None);
        match offset_fields(digits, colon) {
            Some((h, m)) => if h > 18 || m > 59 {
                None
            } else {
                Some(
                    (
                        if negative {
                            -(h * 3600 + m * 60)
                        } else {
                            h * 3600 + m * 60
                        },
                        q,
                    ),
                )
            },
            None => None,
        }
    }
}

fn chars_to_value(digits: &Vec<char>, from: usize, to: usize) -> (v: i64)
    requires
        from <= to <= digits@.len(),
        digits@.len() <= 4,
        text::all_digits(digits@),
    ensures
        v == text::digits_value(digits@.subrange(from as int, to as int)),
        0 <= v <= 9999,
{
    let part = slice_chars(digits, from, to);
    assert(text::all_digits(part@));
    proof {
        lemma_small_value(part@);
    }
    match parse_digits(&part) {
        Some(v) => v,
        None => 0,
    }
}

proof fn lemma_small_value(digits: Seq<char>)
    requires
        text::all_digits(digits),
        digits.len() <= 4,
    ensures
        0 <= text::digits_value(digits) <= 9999,
{
    reveal_with_fuel(text::digits_value, 5);
    assert forall|i: int| 0 <= i < digits.len() implies 48 <= #[trigger] digits[i] as int <= 57 by {
        assert(text::ascii_digit(digits[i]));
    }
    if digits.len() > 0 {
        let a = digits.drop_last();
        if a.len() > 0 {
            let b = a.drop_last();
            if b.len() > 0 {
                let c = b.drop_last();
            }
        }
    }
}

/// Reads an offset from GMT.
pub fn parse_offset(input: &Vec<char>, pos: usize) -> (found: Option<(i32, usize)>)
    requires
        pos <= input@.len(),
    ensures
        match found {
            Some((offset, next)) => offset_match(input@, pos as int) == Some(
                (offset as int, next as int),
            ) && pos <= next <= input@.len(),
            None => offset_match(input@, pos as int) is None,
        },
{
    proof {
        reveal_strlit("GMT");
        reveal_strlit("UTC");
    }
    let gmt = chars_of("GMT");
    let utc = chars_of("UTC");
    let mut p: usize = pos;
    let prefixed = starts_with_ignore_case(input, pos, &gmt) || starts_with_ignore_case(
        input,
        pos,
        &utc,
    );
    if prefixed {
        assert(pos + 3 <= input.len());
        p = pos + 3;
    }
    if !prefixed && p < input.len() && (input[p] == 'Z' || input[p] == 'z') {
        return Some((0, p + 1));
    }
    if p >= input.len() || (input[p] != '+' && input[p] != '-') {
        return if prefixed {
            Some((0, p))
        } else {
            None
        };
    }
    let negative = input[p] == '-';
    p = p + 1;
    let mut digits: Vec<char> = Vec::new();
    let mut colon: Option<usize> = None;
    let ghost goal = offset_scan(input@, p as int, Seq::empty(), None);
    let ghost start = p;
    let mut go: bool = true;
    while go && p < input.len() && digits.len() < 4
        invariant
            start <= p <= input@.len(),
            digits@.len() <= 4,
            text::all_digits(digits@),
            colon matches Some(at) ==> at <= digits@.len(),
            go ==> goal == offset_scan(
                input@,
                p as int,
                digits@,
                match colon {
                    Some(at) => Some(at as int),
                    None => None,
                },
            ),
            !go ==> goal == (
                p as int,
                digits@,
                match colon {
                    Some(at) => Some(at as int),
                    None => None::<int>,
                },
            ),
        decreases
            input@.len() - p,
            if go {
                1int
            } else {
                0
            },
    {
        let c: char = input[p];
        if is_ascii_digit(c) {
            digits.push(c);
            p = p + 1;
        } else if c == ':' && colon.is_none() && digits.len() > 0 {
            colon = Some(digits.len());
            p = p + 1;
        } else {
            go = false;
        }
    }
    let n: usize = digits.len();
    let (h, m): (i64, i64) = match colon {
        Some(at) => {
            assert(digits@.take(at as int) =~= digits@.subrange(0, at as int));
            assert(digits@.skip(at as int) =~= digits@.subrange(at as int, n as int));
            (chars_to_value(&digits, 0, at), chars_to_value(&digits, at, n))
        },
        None => if n == 1 || n == 2 {
            assert(digits@ =~= digits@.subrange(0, n as int));
            (chars_to_value(&digits, 0, n), 0)
        } else if n == 4 {
            assert(digits@.take(2) =~= digits@.subrange(0, 2));
            assert(digits@.skip(2) =~= digits@.subrange(2, 4));
            (chars_to_value(&digits, 0, 2), chars_to_value(&digits, 2, 4))
        } else {
            return None;
        },
    };
    if h > 18 || m > 59 {
        return None;
    }
    let secs: i32 = (h * 3600 + m * 60) as i32;
    Some((
        if negative {
            -secs
        } else {
            secs
        },
        p,
    ))
}

/// The position behind the white space at `pos`.
pub open spec fn skip_space(input: Seq<char>, pos: int) -> int
    decreases input.len() - pos,
{
    if 0 <= pos < input.len() && text::white_space(input[pos]) {
        skip_space(input, pos + 1)
    } else {
        pos
    }
}

fn skip_white_space(input: &Vec<char>, pos: usize) -> (next: usize)
    requires
        pos <= input@.len(),
    ensures
        next == skip_space(input@, pos as int),
        pos <= next <= input@.len(),
{
    let mut p: usize = pos;
    while p < input.len() && is_white_space(input[p])
        invariant
            pos <= p <= input@.len(),
            skip_space(input@, p as int) == skip_space(input@, pos as int),
        decreases input@.len() - p,
    {
        p = p + 1;
    }
    p
}

/// The position behind literal text at `pos`: white space in the literal
/// stands for any amount of white space, other characters for themselves.
pub open spec fn literal_match(input: Seq<char>, pos: int, literal: Seq<char>) -> Option<int>
    decreases literal.len(),
{
    if literal.len() == 0 {
        Some(pos)
    } else if text::white_space(literal[0]) {
        literal_match(input, skip_space(input, pos), literal.drop_first())
    } else if 0 <= pos < input.len() && input[pos] == literal[0] {
        literal_match(input, pos + 1, literal.drop_first())
    } else {
        None
    }
}

fn match_literal(input: &Vec<char>, pos: usize, literal: &Vec<char>) -> (next: Option<usize>)
    requires
        pos <= input@.len(),
    ensures
        match next {
            Some(p) => literal_match(input@, pos as int, literal@) == Some(p as int) && p
                <= input@.len(),
            None => literal_match(input@, pos as int, literal@) is None,
        },
{
    let mut p: usize = pos;
    let mut k: usize = 0;
    assert(literal@.skip(0) =~= literal@);
    while k < literal.len()
        invariant
            k <= literal@.len(),
            p <= input@.len(),
            literal_match(input@, p as int, literal@.skip(k as int)) == literal_match(
                input@,
                pos as int,
                literal@,
            ),
        decreases literal@.len() - k,
    {
        let c: char = literal[k];
        assert(literal@.skip(k as int)[0] == c);
        assert(literal@.skip(k as int).drop_first() =~= literal@.skip(k + 1));
        if is_white_space(c) {
            p = skip_white_space(input, p);
        } else if p < input.len() && input[p] == c {
            p = p + 1;
        } else {
            return None;
        }
        k = k + 1;
    }
    Some(p)
}

/// How many digits from `pos` on, up to `max`.
pub open spec fn digit_run(input: Seq<char>, pos: int, max: int) -> int
    decreases max,
{
    if max > 0 && 0 <= pos < input.len() && text::ascii_digit(input[pos]) {
        1 + digit_run(input, pos + 1, max - 1)
    } else {
        0
    }
}

/// How many digits a numeric field takes: without a limit it takes up to
/// eighteen; directly before another numeric field, as many as the pattern
/// has letters, or four for a year.
pub open spec fn field_digits(tokens: Seq<TokenView>, idx: int, c: char, n: int) -> int {
    let next_is_numeric = idx + 1 < tokens.len() && (tokens[idx + 1] matches TokenView::Field(nc, nn)
        && numeric_field(nc, nn));
    if next_is_numeric {
        if (c == 'y' || c == 'Y' || c == 'u') && n != 2 {
            4
        } else if n < 1 {
            1
        } else {
            n
        }
    } else {
        18
    }
}

/// The fields with the value of a numeric field filled in.
pub open spec fn with_number(
    p: ParsedDate,
    c: char,
    n: int,
    value: i64,
    digits: int,
) -> ParsedDate {
    if c == 'y' || c == 'Y' || c == 'u' {
        ParsedDate {
            year: if n == 2 && digits == 2 {
                if value < 50 {
                    (2000 + value) as i64
                } else {
                    (1900 + value) as i64
                }
            } else {
                value
            },
            ..p
        }
    } else if c == 'M' || c == 'L' {
        ParsedDate { month: value, ..p }
    } else if c == 'd' {
        ParsedDate { day: value, ..p }
    } else if c == 'D' {
        ParsedDate { month: 1, day: value, ..p }
    } else if c == 'H' {
        ParsedDate { hour: value, ..p }
    } else if c == 'k' {
        ParsedDate {
            hour: if value == 24 {
                0
            } else {
                value
            },
            ..p
        }
    } else if c == 'h' {
        ParsedDate {
            hour: if value == 12 {
                0
            } else {
                value
            },
            hour_is_12h: true,
            ..p
        }
    } else if c == 'K' {
        ParsedDate { hour: value, hour_is_12h: true, ..p }
    } else if c == 'm' {
        ParsedDate { minute: value, ..p }
    } else if c == 's' {
        ParsedDate { second: value, ..p }
    } else {
        ParsedDate { fraction: value, fraction_digits: digits as usize, ..p }
    }
}

/// The effect of one token: the position behind it and the fields so far.
pub open spec fn token_match(
    tokens: Seq<TokenView>,
    idx: int,
    input: Seq<char>,
    pos: int,
    p: ParsedDate,
) -> Option<(int, ParsedDate)> {
    match tokens[idx] {
        TokenView::Literal(s) => match literal_match(input, pos, s) {
            Some(next) => Some((next, p)),
            None => None,
        },
        TokenView::Field(c, n) => if numeric_field(c, n) {
            let len = digit_run(input, pos, field_digits(tokens, idx, c, n));
            let value = text::digits_value(input.subrange(pos, pos + len));
            if len == 0 || value > i64::MAX {
                None
            } else {
                Some((pos + len, with_number(p, c, n, value as i64, len)))
            }
        } else if c == 'M' || c == 'L' {
            match name_match_either(month_names(), month_abbreviations(), input, pos) {
                Some((i, next)) => Some((next, ParsedDate { month: (i + 1) as i64, ..p })),
                None => None,
            }
        } else if c == 'E' {
            match name_match_either(weekday_names(), weekday_abbreviations(), input, pos) {
                Some((i, next)) => Some((next, p)),
                None => None,
            }
        } else if c == 'a' {
            match name_match(half_day_names(), input, pos) {
                Some((i, next)) => Some((next, ParsedDate { pm: Some(i == 1), ..p })),
                None => None,
            }
        } else if c == 'G' {
            match name_match(era_names(), input, pos) {
                Some((i, next)) => Some((next, p)),
                None => None,
            }
        } else if c == 'Z' || c == 'z' || c == 'X' || c == 'x' || c == 'O' {
            match offset_match(input, pos) {
                Some((offset, next)) => Some(
                    (next, ParsedDate { offset: Some(offset as i32), ..p }),
                ),
                None => None,
            }
        } else {
            None
        },
    }
}

/// The effect of the tokens from `idx` on.
pub open spec fn tokens_match(
    tokens: Seq<TokenView>,
    idx: int,
    input: Seq<char>,
    pos: int,
    p: ParsedDate,
) -> Option<(int, ParsedDate)>
    decreases tokens.len() - idx,
{
    if idx < 0 || idx >= tokens.len() {
        Some((pos, p))
    } else {
        match token_match(tokens, idx, input, pos, p) {
            Some((next, q)) => tokens_match(tokens, idx + 1, input, next, q),
            None => None,
        }
    }
}

pub open spec fn default_date() -> ParsedDate {
    ParsedDate {
        year: 1970,
        month: 1,
        day: 1,
        hour: 0,
        minute: 0,
        second: 0,
        fraction: 0,
        fraction_digits: 0,
        pm: None,
        offset: None,
        hour_is_12h: false,
    }
}

/// Whether the pattern has a field for the day of the year.
pub open spec fn has_day_of_year(tokens: Seq<TokenView>) -> bool {
    exists|i: int|
        0 <= i < tokens.len() && (#[trigger] tokens[i] matches TokenView::Field(c, n) && c == 'D')
}

/// The hour with the half of the day counted in.
pub open spec fn hour_of_day(p: ParsedDate) -> int {
    if p.hour_is_12h && p.pm == Some(true) {
        p.hour + 12
    } else {
        p.hour as int
    }
}

pub open spec fn fields_in_range(p: ParsedDate, hour: int, day_of_year: bool) -> bool {
    &&& p.year <= 1_000_000
    &&& 1 <= p.month <= 12
    &&& 1 <= p.day
    &&& day_of_year ==> p.day <= 366
    &&& !day_of_year ==> p.day <= civil::month_length(p.year as int, p.month as int)
    &&& 0 <= hour <= 24
    &&& 0 <= p.minute <= 59
    &&& 0 <= p.second <= 60
}

/// The date that a text gives under a pattern.
pub open spec fn date_parse(tokens: Seq<TokenView>, input: Seq<char>) -> Option<ParsedDate> {
    match tokens_match(tokens, 0, input, 0, default_date()) {
        None => None,
        Some((pos, p)) => {
            let hour = hour_of_day(p);
            if skip_space(input, pos) == input.len() && fields_in_range(
                p,
                hour,
                has_day_of_year(tokens),
            ) {
                Some(ParsedDate { hour: hour as i64, ..p })
            } else {
                None
            }
        },
    }
}

proof fn lemma_digit_run(input: Seq<char>, pos: int, max: int)
    requires
        0 <= pos <= input.len(),
    ensures
        0 <= digit_run(input, pos, max) <= input.len() - pos,
        forall|i: int|
            pos <= i < pos + digit_run(input, pos, max) ==> text::ascii_digit(#[trigger] input[i]),
    decreases max,
{
    if max > 0 && pos < input.len() && text::ascii_digit(input[pos]) {
        lemma_digit_run(input, pos + 1, max - 1);
    }
}

fn digits_at(input: &Vec<char>, pos: usize, max: usize) -> (n: usize)
    requires
        pos <= input@.len(),
    ensures
        n == digit_run(input@, pos as int, max as int),
        pos + n <= input.len(),
        text::all_digits(input@.subrange(pos as int, pos + n)),
{
    let mut n: usize = 0;
    while n < max && n < input.len() - pos && is_ascii_digit(input[pos + n])
        invariant
            pos + n <= input.len(),
            n <= max,
            n + digit_run(input@, pos + n, max - n) == digit_run(input@, pos as int, max as int),
        decreases max - n,
    {
        n = n + 1;
    }
    proof {
        lemma_digit_run(input@, pos as int, max as int);
    }
    n
}

fn field_limit(tokens: &Vec<FormatToken>, idx: usize, c: char, n: usize) -> (max: usize)
    requires
        idx < tokens@.len(),
    ensures
        max == field_digits(token_views(tokens@), idx as int, c, n as int),
{
    let mut next_is_numeric: bool = false;
    if idx < tokens.len() - 1 {
        assert(token_views(tokens@)[idx + 1] == tokens@[idx + 1]@);
        if let FormatToken::Field(nc, nn) = &tokens[idx + 1] {
            next_is_numeric = is_numeric_field(*nc, *nn);
        }
    }
    if next_is_numeric {
        if (c == 'y' || c == 'Y' || c == 'u') && n != 2 {
            4
        } else if n < 1 {
            1
        } else {
            n
        }
    } else {
        18
    }
}

fn number_field(p: ParsedDate, c: char, n: usize, value: i64, digits: usize) -> (q: ParsedDate)
    requires
        value >= 0,
        digits <= 4 ==> value <= 9999,
    ensures
        q == with_number(p, c, n as int, value, digits as int),
        p.year >= 0 ==> q.year >= 0,
{
    let mut q = p;
    if c == 'y' || c == 'Y' || c == 'u' {
        q.year =
        if n == 2 && digits == 2 {
            if value < 50 {
                2000 + value
            } else {
                1900 + value
            }
        } else {
            value
        };
    } else if c == 'M' || c == 'L' {
        q.month = value;
    } else if c == 'd' {
        q.day = value;
    } else if c == 'D' {
        q.month = 1;
        q.day = value;
    } else if c == 'H' {
        q.hour = value;
    } else if c == 'k' {
        q.hour =
        if value == 24 {
            0
        } else {
            value
        };
    } else if c == 'h' {
        q.hour =
        if value == 12 {
            0
        } else {
            value
        };
        q.hour_is_12h = true;
    } else if c == 'K' {
        q.hour = value;
        q.hour_is_12h = true;
    } else if c == 'm' {
        q.minute = value;
    } else if c == 's' {
        q.second = value;
    } else {
        q.fraction = value;
        q.fraction_digits = digits;
    }
    q
}

/// Matches one token at `pos`.
fn match_token(
    tokens: &Vec<FormatToken>,
    idx: usize,
    input: &Vec<char>,
    pos: usize,
    p: ParsedDate,
) -> (found: Option<(usize, ParsedDate)>)
    requires
        idx < tokens@.len(),
        pos <= input@.len(),
    ensures
        match found {
            Some((next, q)) => next <= input@.len() && (p.year >= 0 ==> q.year >= 0) && token_match(
                token_views(tokens@),
                idx as int,
                input@,
                pos as int,
                p,
            ) == Some((next as int, q)),
            None => token_match(
                token_views(tokens@),
                idx as int,
                input@,
                pos as int,
                p,
            ) is None,
        },
{
    assert(token_views(tokens@)[idx as int] == tokens@[idx as int]@);
    match &tokens[idx] {
        FormatToken::Literal(s) => match match_literal(input, pos, s) {
            Some(next) => Some((next, p)),
            None => None,
        },
        FormatToken::Field(letter, count) => {
            let c: char = *letter;
            let n: usize = *count;
            if is_numeric_field(c, n) {
                let max: usize = field_limit(tokens, idx, c, n);
                let len: usize = digits_at(input, pos, max);
                if len == 0 {
                    return None;
                }
                let digits = slice_chars(input, pos, pos + len);
                proof {
                    crate::text::lemma_digits_value_monotonic(digits@, 0);
                    if len <= 4 {
                        lemma_small_value(digits@);
                    }
                }
                match parse_digits(&digits) {
                    Some(value) => Some((pos + len, number_field(p, c, n, value, len))),
                    None => None,
                }
            } else {
                match_name_field(c, n, input, pos, p)
            }
        },
    }
}

/// Matches a field that is not written in digits.
fn match_name_field(c: char, n: usize, input: &Vec<char>, pos: usize, p: ParsedDate) -> (found:
    Option<(usize, ParsedDate)>)
    requires
        pos <= input@.len(),
        !numeric_field(c, n as int),
    ensures
        match found {
            Some((next, q)) => next <= input@.len() && (p.year >= 0 ==> q.year >= 0) && token_match(
                seq![TokenView::Field(c, n as int)],
                0,
                input@,
                pos as int,
                p,
            ) == Some((next as int, q)),
            None => token_match(
                seq![TokenView::Field(c, n as int)],
                0,
                input@,
                pos as int,
                p,
            ) is None,
        },
{
    if c == 'M' || c == 'L' {
        match match_name_either(input, pos, &months(), &short_months()) {
            Some((i, next)) => {
                assert(month_names().len() == 12 && month_abbreviations().len() == 12);
                Some((next, ParsedDate { month: i as i64 + 1, ..p }))
            },
            None => None,
        }
    } else if c == 'E' {
        match match_name_either(input, pos, &weekdays(), &short_weekdays()) {
            Some((i, next)) => Some((next, p)),
            None => None,
        }
    } else if c == 'a' {
        let names = names_of(&["AM", "PM"]);
        assert(name_views(names@) =~= half_day_names());
        match match_name(input, pos, &names) {
            Some((i, next)) => Some((next, ParsedDate { pm: Some(i == 1), ..p })),
            None => None,
        }
    } else if c == 'G' {
        let names = names_of(&["AD", "BC"]);
        assert(name_views(names@) =~= era_names());
        match match_name(input, pos, &names) {
            Some((i, next)) => Some((next, p)),
            None => None,
        }
    } else if c == 'Z' || c == 'z' || c == 'X' || c == 'x' || c == 'O' {
        match parse_offset(input, pos) {
            Some((offset, next)) => Some((next, ParsedDate { offset: Some(offset), ..p })),
            None => None,
        }
    } else {
        None
    }
}

fn pattern_has_day_of_year(tokens: &Vec<FormatToken>) -> (has: bool)
    ensures
        has == has_day_of_year(token_views(tokens@)),
{
    let ghost views = token_views(tokens@);
    let mut i: usize = 0;
    while i < tokens.len()
        invariant
            i <= tokens@.len(),
            views == token_views(tokens@),
            forall|j: int|
                0 <= j < i ==> !(#[trigger] views[j] matches TokenView::Field(c, n) && c == 'D'),
        decreases tokens@.len() - i,
    {
        assert(views[i as int] == tokens@[i as int]@);
        if let FormatToken::Field(c, _) = &tokens[i] {
            if *c == 'D' {
                return true;
            }
        }
        i = i + 1;
    }
    false
}

/// Whether the calendar fields are those of a date and time.
fn check_fields(p: &ParsedDate, day_of_year: bool) -> (ok: bool)
    ensures
        ok == fields_in_range(*p, p.hour as int, day_of_year),
{
    if p.year > 1_000_000 || p.month < 1 || p.month > 12 || p.day < 1 {
        return false;
    }
    if day_of_year && p.day > 366 {
        return false;
    }
    if !day_of_year && p.day > days_in_month(p.year, p.month) {
        return false;
    }
    0 <= p.hour && p.hour <= 24 && 0 <= p.minute && p.minute <= 59 && 0 <= p.second && p.second
        <= 60
}

/// Reads a date from a text by the tokens of a pattern. The whole text has to
/// match, but for white space at its end.
pub fn parse_date(tokens: &Vec<FormatToken>, input: &Vec<char>) -> (parsed: Option<ParsedDate>)
    ensures
        parsed == date_parse(token_views(tokens@), input@),
        parsed matches Some(p) ==> 0 <= p.year && fields_in_range(
            p,
            p.hour as int,
            has_day_of_year(token_views(tokens@)),
        ),
{
    let ghost views = token_views(tokens@);
    let mut p = ParsedDate {
        year: 1970,
        month: 1,
        day: 1,
        hour: 0,
        minute: 0,
        second: 0,
        fraction: 0,
        fraction_digits: 0,
        pm: None,
        offset: None,
        hour_is_12h: false,
    };
    let mut pos: usize = 0;
    let mut idx: usize = 0;
    while idx < tokens.len()
        invariant
            idx <= tokens@.len(),
            pos <= input@.len(),
            p.year >= 0,
            views == token_views(tokens@),
            tokens_match(views, idx as int, input@, pos as int, p) == tokens_match(
                views,
                0,
                input@,
                0,
                default_date(),
            ),
        decreases tokens@.len() - idx,
    {
        match match_token(tokens, idx, input, pos, p) {
            Some((next, q)) => {
                pos = next;
                p = q;
            },
            None => {
                return None;
            },
        }
        idx = idx + 1;
    }
    let end: usize = skip_white_space(input, pos);
    if end != input.len() {
        return None;
    }
    if p.hour_is_12h && p.pm == Some(true) {
        if p.hour > 12 {
            return None;
        }
        p.hour = p.hour + 12;
    }
    if check_fields(&p, pattern_has_day_of_year(tokens)) {
        Some(p)
    } else {
        None
    }
}

/// The second that was read from a text: the wall-clock time less the offset
/// that the text gives, or else that of the zone.
pub open spec fn parsed_second(p: ParsedDate, zone_offset: int) -> int {
    civil::timestamp(
        p.year as int,
        p.month - 1,
        p.day as int,
        p.hour as int,
        p.minute as int,
        p.second as int,
    ) - match p.offset {
        Some(offset) => offset as int,
        None => zone_offset,
    }
}

/// The wall-clock time of a parsed date, as seconds since the epoch in UTC.
pub fn parsed_wall_clock(p: &ParsedDate) -> (local: i64)
    requires
        -0x1_0000_0000 <= p.year,
        fields_in_range(*p, p.hour as int, true) || fields_in_range(*p, p.hour as int, false),
    ensures
        local == civil::timestamp(
            p.year as int,
            p.month - 1,
            p.day as int,
            p.hour as int,
            p.minute as int,
            p.second as int,
        ),
        -200_000_000_000_000_000 <= local <= 200_000_000_000_000_000,
{
    proof {
        civil::lemma_days_before_month(p.year as int, p.month as int);
    }
    civil_to_timestamp_i64(p.year, p.month - 1, p.day, p.hour, p.minute, p.second)
}

/// The second since the epoch of a parsed date; `zone_offset` is the offset of
/// the formatter's time zone at its wall-clock time.
pub fn parsed_date_to_unix(p: &ParsedDate, zone_offset: i32) -> (t: i64)
    requires
        -0x1_0000_0000 <= p.year,
        fields_in_range(*p, p.hour as int, true) || fields_in_range(*p, p.hour as int, false),
    ensures
        t == parsed_second(*p, zone_offset as int),
{
    let local: i64 = parsed_wall_clock(p);
    let offset: i64 = match p.offset {
        Some(offset) => offset as i64,
        None => zone_offset as i64,
    };
    local - offset
}

/// The offset of a formatter's time zone at a second; a formatter without a
/// zone uses the host's.
pub open spec fn formatter_offset(
    env: &Environment,
    zone: &LocalZone,
    time_zone: Option<Id>,
    t: int,
    reply: i32,
) -> i32 {
    match time_zone {
        Some(tz) => ns_time_zone::gmt_offset(env.objc.objects@, zone, tz, t, reply),
        None => zone.offset_at(t),
    }
}

/// The offset with which a formatter shows a second.
pub fn formatter_offset_at(
    env: &Environment,
    zone: &LocalZone,
    time_zone: Option<Id>,
    unix_secs: i64,
    reply: i32,
) -> (offset: i32)
    ensures
        offset == formatter_offset(env, zone, time_zone, unix_secs as int, reply),
{
    match time_zone {
        Some(tz) => seconds_from_gmt_at_unix(env, zone, tz, unix_secs, reply),
        None => zone.local_utc_offset_at(unix_secs),
    }
}

/// The second that a formatter reads from a text, with the parsed fields.
pub fn date_from_string(
    env: &Environment,
    zone: &LocalZone,
    time_zone: Option<Id>,
    format: &Vec<char>,
    input: &Vec<char>,
    reply: i32,
) -> (found: Option<(i64, ParsedDate)>)
    ensures
        ({
            let parsed = date_parse(pattern_tokens(format@, 0, Seq::empty(), false), input@);
            match found {
                Some((t, p)) => {
                    let local = parsed_second(p, 0) + match p.offset {
                        Some(offset) => offset as int,
                        None => 0,
                    };
                    &&& parsed == Some(p)
                    &&& t == parsed_second(
                        p,
                        formatter_offset(
                            env,
                            zone,
                            time_zone,
                            local - formatter_offset(env, zone, time_zone, local, reply),
                            reply,
                        ) as int,
                    )
                },
                None => parsed is None,
            }
        }),
{
    let tokens = tokenize_date_format(format);
    match parse_date(&tokens, input) {
        None => None,
        Some(p) => {
            let local: i64 = parsed_wall_clock(&p);
            let offset: i32 = match time_zone {
                Some(tz) => seconds_from_gmt_for_wall_clock(env, zone, tz, local, reply),
                None => zone.local_utc_offset_for_wall_clock(local),
            };
            Some((parsed_date_to_unix(&p, offset), p))
        },
    }
}

/// A pattern without letters and quotes is one literal, or nothing.
pub proof fn law_plain_pattern_is_literal(chars: Seq<char>)
    requires
        forall|i: int|
            0 <= i < chars.len() ==> !text::ascii_alphabetic(#[trigger] chars[i]) && chars[i]
                != '\'',
    ensures
        pattern_tokens(chars, 0, Seq::empty(), false) == flushed(chars),
{
    lemma_plain_from(chars, 0, Seq::empty());
    assert(Seq::<char>::empty() + chars.skip(0) =~= chars);
}

proof fn lemma_plain_from(chars: Seq<char>, i: int, literal: Seq<char>)
    requires
        0 <= i <= chars.len(),
        forall|j: int|
            0 <= j < chars.len() ==> !text::ascii_alphabetic(#[trigger] chars[j]) && chars[j]
                != '\'',
    ensures
        pattern_tokens(chars, i, literal, false) == flushed(literal + chars.skip(i)),
    decreases chars.len() - i,
{
    if i < chars.len() {
        lemma_plain_from(chars, i + 1, literal.push(chars[i]));
        assert(literal.push(chars[i]) + chars.skip(i + 1) =~= literal + chars.skip(i));
    } else {
        assert(literal + chars.skip(i) =~= literal);
    }
}

/// A number that was written into a text with a fixed width is read back by a
/// numeric field of that width: the digits are those of the number, and they
/// are all there is to read up to the next character that is not a digit.
pub proof fn law_number_field_round_trip(v: nat, width: nat, rest: Seq<char>)
    requires
        text::padded(v, width).len() <= 18,
        rest.len() > 0 ==> !text::ascii_digit(rest[0]),
    ensures
        ({
            let input = text::padded(v, width) + rest;
            let len = digit_run(input, 0, 18);
            &&& len == text::padded(v, width).len()
            &&& text::digits_value(input.subrange(0, len)) == v
        }),
{
    text::law_padded_value(v, width);
    let digits = text::padded(v, width);
    let input = digits + rest;
    assert forall|i: int| 0 <= i < digits.len() implies text::ascii_digit(#[trigger] input[i]) by {
        assert(text::ascii_digit(digits[i]));
    }
    lemma_digit_run_exact(input, 0, digits.len() as int, 18);
    assert(input.subrange(0, digits.len() as int) =~= digits);
}

proof fn lemma_digit_run_exact(input: Seq<char>, pos: int, end: int, max: int)
    requires
        0 <= pos <= end <= input.len(),
        end - pos <= max,
        forall|i: int| pos <= i < end ==> text::ascii_digit(#[trigger] input[i]),
        end - pos < max && end < input.len() ==> !text::ascii_digit(input[end]),
    ensures
        digit_run(input, pos, max) == end - pos,
    decreases max,
{
    if pos < end {
        lemma_digit_run_exact(input, pos + 1, end, max - 1);
    }
}

/// Whether the `i`-th token writes something that parsing reads back for a date
/// in the given year. A field is written in digits. It does not stand directly
/// before another field, unless it always has as many digits as it takes there.
/// A year in two digits stands for one from 1950 to 2049. A literal behind a
/// field does not start with a digit.
pub open spec fn reads_back(tokens: Seq<TokenView>, i: int, year: int) -> bool {
    match tokens[i] {
        TokenView::Field(c, n) => {
            &&& 1 <= n <= 18
            &&& c == 'y' && (n == 2 ==> 1950 <= year <= 2049) || c == 'M' && n <= 2 || c == 'd' || c
                == 'H' || c == 'm' || c == 's'
            &&& i + 1 < tokens.len() && tokens[i + 1] is Field ==> n == 2 || c == 'y' && n == 4
                && year <= 9999
        },
        TokenView::Literal(s) => {
            &&& s.len() > 0
            &&& i > 0 ==> !text::ascii_digit(s[0])
            &&& i + 1 < tokens.len() ==> tokens[i + 1] is Field
        },
    }
}

pub open spec fn is_field(token: TokenView, c: char) -> bool {
    token matches TokenView::Field(letter, n) && letter == c
}

/// Whether the letter occurs in the pattern from a token on.
pub open spec fn has_field(tokens: Seq<TokenView>, from: int, c: char) -> bool {
    exists|i: int| from <= i < tokens.len() && #[trigger] is_field(tokens[i], c)
}

/// The calendar fields of a parsed date without a fraction, an offset and a
/// half of the day.
pub open spec fn parsed_civil(c: CivilTime) -> ParsedDate {
    ParsedDate {
        year: c.year,
        month: c.month,
        day: c.day,
        hour: c.hour,
        minute: c.minute,
        second: c.second,
        ..default_date()
    }
}

/// A date that was written under a pattern with all the fields from the year
/// to the second is read back under it: the text gives the same calendar
/// fields, and with the offset of the zone the same second.
pub proof fn law_date_round_trip(tokens: Seq<TokenView>, t: &LocalTime, local: int, offset: int)
    requires
        t.wf(),
        civil::is_civil(t.civil, local),
        0 <= t.civil.year <= 1_000_000,
        forall|i: int|
            0 <= i < tokens.len() ==> #[trigger] reads_back(tokens, i, t.civil.year as int),
        has_field(tokens, 0, 'y'),
        has_field(tokens, 0, 'M'),
        has_field(tokens, 0, 'd'),
        has_field(tokens, 0, 'H'),
        has_field(tokens, 0, 'm'),
        has_field(tokens, 0, 's'),
    ensures
        date_parse(tokens, date_text(tokens, t)) == Some(parsed_civil(t.civil)),
        parsed_second(parsed_civil(t.civil), offset) == local - offset,
{
    let input = date_text(tokens, t);
    assert(tokens.take(tokens.len() as int) =~= tokens);
    assert(tokens.take(0) =~= Seq::empty());
    lemma_tokens_read_back(tokens, 0, t, default_date());
    lemma_filled(tokens, 0, t.civil, default_date());
    let p = filled(tokens, 0, t.civil, default_date());
    assert(!has_day_of_year(tokens)) by {
        assert forall|i: int| 0 <= i < tokens.len() implies !(#[trigger] tokens[i] matches TokenView::Field(
            c,
            n,
        ) && c == 'D') by {
            assert(reads_back(tokens, i, t.civil.year as int));
        }
    }
    assert(p == parsed_civil(t.civil));
    civil::law_civil_round_trip(t.civil, local);
}

/// A formatter reads back what it has written: the text of a second under its
/// pattern and in its time zone gives that second. The offset of the zone is the
/// same at the second and at the wall-clock time taken as a second; only close to a
/// change of the offset it may not be.
pub proof fn law_formatter_round_trip(
    env: &Environment,
    zone: &LocalZone,
    time_zone: Option<Id>,
    reply: i32,
    format: Seq<char>,
    t: &LocalTime,
    second: int,
)
    requires
        t.wf(),
        civil::is_civil(
            t.civil,
            second + formatter_offset(env, zone, time_zone, second, reply),
        ),
        0 <= t.civil.year <= 1_000_000,
        ({
            let tokens = pattern_tokens(format, 0, Seq::empty(), false);
            &&& forall|i: int|
                0 <= i < tokens.len() ==> #[trigger] reads_back(tokens, i, t.civil.year as int)
            &&& has_field(tokens, 0, 'y') && has_field(tokens, 0, 'M') && has_field(tokens, 0, 'd')
            &&& has_field(tokens, 0, 'H') && has_field(tokens, 0, 'm') && has_field(tokens, 0, 's')
        }),
        formatter_offset(env, zone, time_zone, second, reply) == formatter_offset(
            env,
            zone,
            time_zone,
            second + formatter_offset(env, zone, time_zone, second, reply),
            reply,
        ),
    ensures
        ({
            let tokens = pattern_tokens(format, 0, Seq::empty(), false);
            let p = parsed_civil(t.civil);
            let local = parsed_second(p, 0);
            &&& date_parse(tokens, date_text(tokens, t)) == Some(p)
            &&& parsed_second(
                p,
                formatter_offset(
                    env,
                    zone,
                    time_zone,
                    local - formatter_offset(env, zone, time_zone, local, reply),
                    reply,
                ) as int,
            ) == second
        }),
{
    let tokens = pattern_tokens(format, 0, Seq::empty(), false);
    let offset = formatter_offset(env, zone, time_zone, second, reply) as int;
    law_date_round_trip(tokens, t, second + offset, 0);
    law_date_round_trip(tokens, t, second + offset, offset);
}

/// The fields of `p` with those of the tokens from `idx` on taken from `civil`.
spec fn filled(tokens: Seq<TokenView>, idx: int, civil: CivilTime, p: ParsedDate) -> ParsedDate
    decreases tokens.len() - idx,
{
    if idx < 0 || idx >= tokens.len() {
        p
    } else {
        filled(
            tokens,
            idx + 1,
            civil,
            match tokens[idx] {
                TokenView::Literal(s) => p,
                TokenView::Field(c, n) => with_civil(p, c, civil),
            },
        )
    }
}

spec fn with_civil(p: ParsedDate, c: char, civil: CivilTime) -> ParsedDate {
    if c == 'y' {
        ParsedDate { year: civil.year, ..p }
    } else if c == 'M' {
        ParsedDate { month: civil.month, ..p }
    } else if c == 'd' {
        ParsedDate { day: civil.day, ..p }
    } else if c == 'H' {
        ParsedDate { hour: civil.hour, ..p }
    } else if c == 'm' {
        ParsedDate { minute: civil.minute, ..p }
    } else {
        ParsedDate { second: civil.second, ..p }
    }
}

proof fn lemma_filled(tokens: Seq<TokenView>, idx: int, civil: CivilTime, p: ParsedDate)
    requires
        0 <= idx <= tokens.len(),
    ensures
        ({
            let q = filled(tokens, idx, civil, p);
            &&& has_field(tokens, idx, 'y') || p.year == civil.year ==> q.year == civil.year
            &&& has_field(tokens, idx, 'M') || p.month == civil.month ==> q.month == civil.month
            &&& has_field(tokens, idx, 'd') || p.day == civil.day ==> q.day == civil.day
            &&& has_field(tokens, idx, 'H') || p.hour == civil.hour ==> q.hour == civil.hour
            &&& has_field(tokens, idx, 'm') || p.minute == civil.minute ==> q.minute == civil.minute
            &&& has_field(tokens, idx, 's') || p.second == civil.second ==> q.second == civil.second
            &&& q == (ParsedDate {
                year: q.year,
                month: q.month,
                day: q.day,
                hour: q.hour,
                minute: q.minute,
                second: q.second,
                ..p
            })
        }),
    decreases tokens.len() - idx,
{
    if idx < tokens.len() {
        let next = match tokens[idx] {
            TokenView::Literal(s) => p,
            TokenView::Field(c, n) => with_civil(p, c, civil),
        };
        lemma_filled(tokens, idx + 1, civil, next);
        assert forall|c: char| #[trigger]
            has_field(tokens, idx, c) implies is_field(tokens[idx], c) || has_field(
            tokens,
            idx + 1,
            c,
        ) by {
            let i = choose|i: int| idx <= i < tokens.len() && #[trigger] is_field(tokens[i], c);
            if i > idx {
                assert(is_field(tokens[i], c));
            }
        }
    }
}

/// Where the text of the `i`-th token starts, and that it stands there.
proof fn lemma_token_place(tokens: Seq<TokenView>, i: int, n: int, t: &LocalTime)
    requires
        0 <= i < n <= tokens.len(),
    ensures
        ({
            let input = date_text(tokens.take(n), t);
            let from = date_text(tokens.take(i), t).len() as int;
            let to = date_text(tokens.take(i + 1), t).len() as int;
            &&& 0 <= from <= to <= input.len()
            &&& to - from == token_text(tokens[i], t).len()
            &&& input.subrange(from, to) == token_text(tokens[i], t)
        }),
    decreases n,
{
    let input = date_text(tokens.take(n), t);
    assert(tokens.take(n).drop_last() =~= tokens.take(n - 1));
    assert(tokens.take(i + 1).drop_last() =~= tokens.take(i));
    let before = date_text(tokens.take(n - 1), t);
    let from = date_text(tokens.take(i), t).len() as int;
    let to = date_text(tokens.take(i + 1), t).len() as int;
    if i < n - 1 {
        lemma_token_place(tokens, i, n - 1, t);
        assert(input.subrange(from, to) =~= before.subrange(from, to));
    } else {
        assert(input.subrange(from, to) =~= token_text(tokens[i], t));
    }
}

/// The text of a field that reads back is a number in digits, from which
/// parsing fills in the field.
proof fn lemma_field_digits(tokens: Seq<TokenView>, i: int, t: &LocalTime, p: ParsedDate)
    requires
        t.wf(),
        0 <= t.civil.year <= 1_000_000,
        0 <= i < tokens.len(),
        reads_back(tokens, i, t.civil.year as int),
        tokens[i] is Field,
        i + 1 < tokens.len() ==> reads_back(tokens, i + 1, t.civil.year as int),
    ensures
        ({
            let c = tokens[i]->Field_0;
            let n = tokens[i]->Field_1;
            let digits = token_text(tokens[i], t);
            let value = text::digits_value(digits);
            let max = field_digits(tokens, i, c, n);
            &&& numeric_field(c, n)
            &&& text::all_digits(digits)
            &&& 1 <= digits.len() <= max
            &&& i + 1 < tokens.len() && tokens[i + 1] is Field ==> digits.len() == max
            &&& value <= i64::MAX
            &&& with_number(p, c, n, value as i64, digits.len() as int) == with_civil(
                p,
                c,
                t.civil,
            )
        }),
{
    let c = tokens[i]->Field_0;
    let n = tokens[i]->Field_1;
    let year = t.civil.year as nat;
    let written: nat = if c == 'y' {
        if n == 2 {
            year % 100
        } else {
            year
        }
    } else if c == 'M' {
        t.civil.month as nat
    } else if c == 'd' {
        t.civil.day as nat
    } else if c == 'H' {
        t.civil.hour as nat
    } else if c == 'm' {
        t.civil.minute as nat
    } else {
        t.civil.second as nat
    };
    let width: nat = if c == 'y' {
        n as nat
    } else {
        smaller(n, 2) as nat
    };
    assert(token_text(tokens[i], t) == text::padded(written, width));
    text::law_padded_value(written, width);
    assert(text::decimal(written).len() <= 7 && (written <= 99 ==> text::decimal(written).len() <= 2)
        && (written <= 9999 ==> text::decimal(written).len() <= 4)) by {
        reveal_with_fuel(text::decimal, 8);
    }
}

proof fn lemma_skip_space_twice(input: Seq<char>, pos: int)
    ensures
        skip_space(input, skip_space(input, pos)) == skip_space(input, pos),
    decreases input.len() - pos,
{
    if 0 <= pos < input.len() && text::white_space(input[pos]) {
        lemma_skip_space_twice(input, pos + 1);
    }
}

/// Literal text that does not stand before white space matches itself, from
/// its `k`-th character on; `at` is there, or behind the white space there.
proof fn lemma_literal_reads_back(
    input: Seq<char>,
    pos: int,
    literal: Seq<char>,
    k: int,
    at: int,
)
    requires
        0 <= pos,
        0 <= k <= literal.len(),
        pos + literal.len() <= input.len(),
        input.subrange(pos, pos + literal.len()) == literal,
        pos + literal.len() < input.len() ==> !text::white_space(input[pos + literal.len()]),
        at == pos + k || at == skip_space(input, pos + k),
    ensures
        literal_match(input, at, literal.skip(k)) == Some(pos + literal.len()),
    decreases literal.len() - k,
{
    if k < literal.len() {
        assert(input[pos + k] == input.subrange(pos, pos + literal.len())[k]);
        assert(literal.skip(k).drop_first() =~= literal.skip(k + 1));
        if text::white_space(literal[k]) {
            lemma_skip_space_twice(input, pos + k);
            lemma_literal_reads_back(input, pos, literal, k + 1, skip_space(input, at));
        } else {
            lemma_literal_reads_back(input, pos, literal, k + 1, at + 1);
        }
    }
}

/// The text of a pattern that reads back is matched token by token, and fills
/// in the fields of the pattern.
proof fn lemma_tokens_read_back(tokens: Seq<TokenView>, idx: int, t: &LocalTime, p: ParsedDate)
    requires
        t.wf(),
        0 <= t.civil.year <= 1_000_000,
        0 <= idx <= tokens.len(),
        forall|i: int|
            0 <= i < tokens.len() ==> #[trigger] reads_back(tokens, i, t.civil.year as int),
    ensures
        tokens_match(
            tokens,
            idx,
            date_text(tokens, t),
            date_text(tokens.take(idx), t).len() as int,
            p,
        ) == Some((date_text(tokens, t).len() as int, filled(tokens, idx, t.civil, p))),
    decreases tokens.len() - idx,
{
    let input = date_text(tokens, t);
    let len = tokens.len() as int;
    let year = t.civil.year as int;
    assert(tokens.take(len) =~= tokens);
    if idx < len {
        let from = date_text(tokens.take(idx), t).len() as int;
        let to = date_text(tokens.take(idx + 1), t).len() as int;
        lemma_token_place(tokens, idx, len, t);
        assert(reads_back(tokens, idx, year));
        if idx + 1 < len {
            lemma_token_place(tokens, idx + 1, len, t);
            assert(reads_back(tokens, idx + 1, year));
            let end = date_text(tokens.take(idx + 2), t).len() as int;
            let following = token_text(tokens[idx + 1], t);
            if tokens[idx + 1] is Field {
                if idx + 2 < len {
                    assert(reads_back(tokens, idx + 2, year));
                }
                lemma_field_digits(tokens, idx + 1, t, p);
                assert(text::ascii_digit(following[0]));
            }
            assert(input[to] == input.subrange(to, end)[0]);
        }
        match tokens[idx] {
            TokenView::Literal(s) => {
                lemma_literal_reads_back(input, from, s, 0, from);
                assert(s.skip(0) =~= s);
                lemma_tokens_read_back(tokens, idx + 1, t, p);
            },
            TokenView::Field(c, n) => {
                lemma_field_digits(tokens, idx, t, p);
                let digits = token_text(tokens[idx], t);
                assert forall|i: int| from <= i < to implies text::ascii_digit(
                    #[trigger] input[i],
                ) by {
                    assert(input[i] == input.subrange(from, to)[i - from]);
                    assert(text::ascii_digit(digits[i - from]));
                }
                lemma_digit_run_exact(input, from, to, field_digits(tokens, idx, c, n));
                lemma_tokens_read_back(tokens, idx + 1, t, with_civil(p, c, t.civil));
            },
        }
    }
}

/// A character that no number, name or offset goes on with.
pub open spec fn stops(c: char) -> bool {
    !text::ascii_digit(c) && !text::ascii_alphabetic(c) && c != ':' && c != '+' && c != '-'
}

/// What stands behind the text of a date decides: white space changes nothing, and
/// nothing is read from a text with another character.
pub proof fn law_trailing_character(tokens: Seq<TokenView>, input: Seq<char>, c: char)
    requires
        date_parse(tokens, input) is Some,
        stops(c),
    ensures
        text::white_space(c) ==> date_parse(tokens, input.push(c)) == date_parse(tokens, input),
        !text::white_space(c) ==> date_parse(tokens, input.push(c)) is None,
{
    let longer = input.push(c);
    let len = input.len() as int;
    let (end, p) = tokens_match(tokens, 0, input, 0, default_date())->0;
    lemma_tokens_longer(tokens, 0, input, c, 0, default_date());
    lemma_skip_space_longer(input, c, end);
    lemma_skip_space_longer(longer, c, len);
    assert(longer[len] == c);
    reveal_with_fuel(skip_space, 2);
}

/// A text with one character more has been matched up to the same place, or up to its
/// end where the character is white space.
spec fn same_end(len: int, c: char, end: int, longer_end: int) -> bool {
    longer_end == end || (text::white_space(c) && end == len && longer_end == len + 1)
}

proof fn lemma_skip_space_longer(input: Seq<char>, c: char, pos: int)
    requires
        0 <= pos <= input.len(),
    ensures
        pos <= skip_space(input, pos) <= input.len(),
        same_end(
            input.len() as int,
            c,
            skip_space(input, pos),
            skip_space(input.push(c), pos),
        ),
        skip_space(input, pos) == input.len() && text::white_space(c) ==> skip_space(
            input.push(c),
            pos,
        ) == input.len() + 1,
    decreases input.len() - pos,
{
    let longer = input.push(c);
    if pos < input.len() {
        assert(longer[pos] == input[pos]);
        if text::white_space(input[pos]) {
            lemma_skip_space_longer(input, c, pos + 1);
        }
    } else {
        assert(longer[pos] == c);
        assert(skip_space(longer, pos + 1) == pos + 1);
    }
}

proof fn lemma_literal_at_end(input: Seq<char>, c: char, literal: Seq<char>)
    requires
        literal_match(input, input.len() as int, literal) is Some,
    ensures
        literal_match(input, input.len() as int, literal) == Some(input.len() as int),
        literal_match(input.push(c), input.len() as int + 1, literal) == Some(input.len() as int + 1),
    decreases literal.len(),
{
    let len = input.len() as int;
    if literal.len() > 0 {
        assert(skip_space(input, len) == len);
        assert(skip_space(input.push(c), len + 1) == len + 1);
        lemma_literal_at_end(input, c, literal.drop_first());
    }
}

proof fn lemma_literal_longer(input: Seq<char>, c: char, pos: int, literal: Seq<char>)
    requires
        0 <= pos <= input.len(),
        literal_match(input, pos, literal) is Some,
    ensures
        pos <= literal_match(input, pos, literal)->0 <= input.len(),
        literal_match(input.push(c), pos, literal) matches Some(end) && same_end(
            input.len() as int,
            c,
            literal_match(input, pos, literal)->0,
            end,
        ),
    decreases literal.len(),
{
    if literal.len() > 0 {
        let rest = literal.drop_first();
        if text::white_space(literal[0]) {
            let next = skip_space(input, pos);
            lemma_skip_space_longer(input, c, pos);
            lemma_literal_longer(input, c, next, rest);
            if skip_space(input.push(c), pos) != next {
                lemma_literal_at_end(input, c, rest);
            }
        } else {
            assert(input.push(c)[pos] == input[pos]);
            lemma_literal_longer(input, c, pos + 1, rest);
        }
    }
}

proof fn lemma_digits_longer(input: Seq<char>, c: char, pos: int, max: int)
    requires
        0 <= pos <= input.len(),
        stops(c),
    ensures
        0 <= digit_run(input, pos, max) <= input.len() - pos,
        digit_run(input.push(c), pos, max) == digit_run(input, pos, max),
    decreases max,
{
    let longer = input.push(c);
    if max > 0 && pos < input.len() {
        assert(longer[pos] == input[pos]);
        if text::ascii_digit(input[pos]) {
            lemma_digits_longer(input, c, pos + 1, max - 1);
        }
    } else if max > 0 {
        assert(longer[pos] == c);
    }
}

/// Names that are made of letters.
spec fn of_letters(names: Seq<Seq<char>>) -> bool {
    forall|i: int| 0 <= i < names.len() ==> letters_only(#[trigger] names[i])
}

spec fn letters_only(name: Seq<char>) -> bool {
    forall|k: int| 0 <= k < name.len() ==> text::ascii_alphabetic(#[trigger] name[k])
}

proof fn lemma_names_of_letters()
    ensures
        of_letters(month_names()),
        of_letters(month_abbreviations()),
        of_letters(weekday_names()),
        of_letters(weekday_abbreviations()),
        of_letters(half_day_names()),
        of_letters(era_names()),
        letters_only("GMT"@),
        letters_only("UTC"@),
{
    reveal_strlit("January");
    reveal_strlit("February");
    reveal_strlit("March");
    reveal_strlit("April");
    reveal_strlit("May");
    reveal_strlit("June");
    reveal_strlit("July");
    reveal_strlit("August");
    reveal_strlit("September");
    reveal_strlit("October");
    reveal_strlit("November");
    reveal_strlit("December");
    reveal_strlit("Jan");
    reveal_strlit("Feb");
    reveal_strlit("Mar");
    reveal_strlit("Apr");
    reveal_strlit("Jun");
    reveal_strlit("Jul");
    reveal_strlit("Aug");
    reveal_strlit("Sep");
    reveal_strlit("Oct");
    reveal_strlit("Nov");
    reveal_strlit("Dec");
    reveal_strlit("Sunday");
    reveal_strlit("Monday");
    reveal_strlit("Tuesday");
    reveal_strlit("Wednesday");
    reveal_strlit("Thursday");
    reveal_strlit("Friday");
    reveal_strlit("Saturday");
    reveal_strlit("Sun");
    reveal_strlit("Mon");
    reveal_strlit("Tue");
    reveal_strlit("Wed");
    reveal_strlit("Thu");
    reveal_strlit("Fri");
    reveal_strlit("Sat");
    reveal_strlit("AM");
    reveal_strlit("PM");
    reveal_strlit("AD");
    reveal_strlit("BC");
    reveal_strlit("GMT");
    reveal_strlit("UTC");
}

proof fn lemma_stands_longer(input: Seq<char>, c: char, pos: int, name: Seq<char>)
    requires
        0 <= pos <= input.len(),
        stops(c),
        letters_only(name),
    ensures
        text::stands_at(input.push(c), pos, name) == text::stands_at(input, pos, name),
{
    let longer = input.push(c);
    if text::stands_at(longer, pos, name) {
        if pos + name.len() > input.len() {
            let k = name.len() - 1;
            assert(text::ascii_alphabetic(name[k]));
            assert(text::eq_ascii_case(longer[pos + k], name[k]));
            assert(longer[pos + k] == c);
        } else {
            assert forall|k: int| 0 <= k < name.len() implies text::eq_ascii_case(
                #[trigger] input[pos + k],
                name[k],
            ) by {
                assert(longer[pos + k] == input[pos + k]);
            }
        }
    } else if text::stands_at(input, pos, name) {
        assert forall|k: int| 0 <= k < name.len() implies text::eq_ascii_case(
            #[trigger] longer[pos + k],
            name[k],
        ) by {
            assert(longer[pos + k] == input[pos + k]);
        }
    }
}

proof fn lemma_name_longer(names: Seq<Seq<char>>, input: Seq<char>, c: char, pos: int, k: int)
    requires
        0 <= pos <= input.len(),
        0 <= k <= names.len(),
        stops(c),
        of_letters(names),
    ensures
        best_name(names, input.push(c), pos, k) == best_name(names, input, pos, k),
        best_name(names, input, pos, k) matches Some(i) ==> 0 <= i < k && pos + names[i].len()
            <= input.len(),
    decreases k,
{
    if k > 0 {
        lemma_name_longer(names, input, c, pos, k - 1);
        lemma_stands_longer(input, c, pos, names[k - 1]);
    }
}

proof fn lemma_scan_longer(
    input: Seq<char>,
    c: char,
    pos: int,
    digits: Seq<char>,
    colon: Option<int>,
)
    requires
        0 <= pos <= input.len(),
        stops(c),
    ensures
        offset_scan(input.push(c), pos, digits, colon) == offset_scan(input, pos, digits, colon),
        pos <= offset_scan(input, pos, digits, colon).0 <= input.len(),
    decreases input.len() - pos,
{
    let longer = input.push(c);
    if pos < input.len() {
        assert(longer[pos] == input[pos]);
        if digits.len() < 4 {
            if text::ascii_digit(input[pos]) {
                lemma_scan_longer(input, c, pos + 1, digits.push(input[pos]), colon);
            } else if input[pos] == ':' && colon is None && digits.len() > 0 {
                lemma_scan_longer(input, c, pos + 1, digits, Some(digits.len() as int));
            }
        }
    } else {
        assert(longer[pos] == c);
    }
}

/// An offset that is read from a text is read from a longer one too.
proof fn lemma_offset_longer(input: Seq<char>, c: char, pos: int)
    requires
        0 <= pos <= input.len(),
        stops(c),
        offset_match(input, pos) is Some,
    ensures
        offset_match(input.push(c), pos) == offset_match(input, pos),
        pos <= (offset_match(input, pos)->0).1 <= input.len(),
{
    let longer = input.push(c);
    lemma_names_of_letters();
    lemma_stands_longer(input, c, pos, "GMT"@);
    lemma_stands_longer(input, c, pos, "UTC"@);
    reveal_strlit("GMT");
    reveal_strlit("UTC");
    let prefixed = text::stands_at(input, pos, "GMT"@) || text::stands_at(input, pos, "UTC"@);
    let p = if prefixed {
        pos + 3
    } else {
        pos
    };
    if p < input.len() {
        assert(longer[p] == input[p]);
        lemma_scan_longer(input, c, p + 1, Seq::empty(), None);
    } else {
        assert(longer[p] == c);
    }
}

proof fn lemma_token_longer(
    tokens: Seq<TokenView>,
    idx: int,
    input: Seq<char>,
    c: char,
    pos: int,
    p: ParsedDate,
)
    requires
        0 <= idx < tokens.len(),
        0 <= pos <= input.len(),
        stops(c),
        token_match(tokens, idx, input, pos, p) is Some,
    ensures
        ({
            let (end, q) = token_match(tokens, idx, input, pos, p)->0;
            &&& pos <= end <= input.len()
            &&& token_match(tokens, idx, input.push(c), pos, p) matches Some(longer) && same_end(
                input.len() as int,
                c,
                end,
                longer.0,
            ) && longer.1 == q
        }),
{
    let longer = input.push(c);
    match tokens[idx] {
        TokenView::Literal(l) => lemma_literal_longer(input, c, pos, l),
        TokenView::Field(letter, n) => if numeric_field(letter, n) {
            let max = field_digits(tokens, idx, letter, n);
            lemma_digits_longer(input, c, pos, max);
            let len = digit_run(input, pos, max);
            assert(longer.subrange(pos, pos + len) =~= input.subrange(pos, pos + len));
        } else {
            lemma_names_of_letters();
            lemma_name_longer(month_names(), input, c, pos, month_names().len() as int);
            lemma_name_longer(
                month_abbreviations(),
                input,
                c,
                pos,
                month_abbreviations().len() as int,
            );
            lemma_name_longer(weekday_names(), input, c, pos, weekday_names().len() as int);
            lemma_name_longer(
                weekday_abbreviations(),
                input,
                c,
                pos,
                weekday_abbreviations().len() as int,
            );
            lemma_name_longer(half_day_names(), input, c, pos, half_day_names().len() as int);
            lemma_name_longer(era_names(), input, c, pos, era_names().len() as int);
            if offset_match(input, pos) is Some {
                lemma_offset_longer(input, c, pos);
            }
        },
    }
}

/// At the end of a text only what needs no text is matched.
proof fn lemma_token_at_end(
    tokens: Seq<TokenView>,
    idx: int,
    input: Seq<char>,
    c: char,
    p: ParsedDate,
)
    requires
        0 <= idx < tokens.len(),
        text::white_space(c),
        token_match(tokens, idx, input, input.len() as int, p) is Some,
    ensures
        token_match(tokens, idx, input, input.len() as int, p) == Some((input.len() as int, p)),
        token_match(tokens, idx, input.push(c), input.len() as int + 1, p) == Some(
            (input.len() as int + 1, p),
        ),
{
    let len = input.len() as int;
    match tokens[idx] {
        TokenView::Literal(l) => lemma_literal_at_end(input, c, l),
        TokenView::Field(letter, n) => {
            lemma_names_not_empty();
            lemma_no_name(month_names(), input, month_names().len() as int);
            lemma_no_name(month_abbreviations(), input, month_abbreviations().len() as int);
            lemma_no_name(weekday_names(), input, weekday_names().len() as int);
            lemma_no_name(weekday_abbreviations(), input, weekday_abbreviations().len() as int);
            lemma_no_name(half_day_names(), input, half_day_names().len() as int);
            lemma_no_name(era_names(), input, era_names().len() as int);
            reveal_strlit("GMT");
            reveal_strlit("UTC");
        },
    }
}

proof fn lemma_names_not_empty()
    ensures
        forall|i: int| 0 <= i < 12 ==> (#[trigger] month_names()[i]).len() > 0,
        forall|i: int| 0 <= i < 12 ==> (#[trigger] month_abbreviations()[i]).len() > 0,
        forall|i: int| 0 <= i < 7 ==> (#[trigger] weekday_names()[i]).len() > 0,
        forall|i: int| 0 <= i < 7 ==> (#[trigger] weekday_abbreviations()[i]).len() > 0,
        forall|i: int| 0 <= i < 2 ==> (#[trigger] half_day_names()[i]).len() > 0,
        forall|i: int| 0 <= i < 2 ==> (#[trigger] era_names()[i]).len() > 0,
{
    reveal_strlit("January");
    reveal_strlit("February");
    reveal_strlit("March");
    reveal_strlit("April");
    reveal_strlit("May");
    reveal_strlit("June");
    reveal_strlit("July");
    reveal_strlit("August");
    reveal_strlit("September");
    reveal_strlit("October");
    reveal_strlit("November");
    reveal_strlit("December");
    reveal_strlit("Jan");
    reveal_strlit("Feb");
    reveal_strlit("Mar");
    reveal_strlit("Apr");
    reveal_strlit("Jun");
    reveal_strlit("Jul");
    reveal_strlit("Aug");
    reveal_strlit("Sep");
    reveal_strlit("Oct");
    reveal_strlit("Nov");
    reveal_strlit("Dec");
    reveal_strlit("Sunday");
    reveal_strlit("Monday");
    reveal_strlit("Tuesday");
    reveal_strlit("Wednesday");
    reveal_strlit("Thursday");
    reveal_strlit("Friday");
    reveal_strlit("Saturday");
    reveal_strlit("Sun");
    reveal_strlit("Mon");
    reveal_strlit("Tue");
    reveal_strlit("Wed");
    reveal_strlit("Thu");
    reveal_strlit("Fri");
    reveal_strlit("Sat");
    reveal_strlit("AM");
    reveal_strlit("PM");
    reveal_strlit("AD");
    reveal_strlit("BC");
    reveal_strlit("GMT");
    reveal_strlit("UTC");
}

proof fn lemma_no_name(names: Seq<Seq<char>>, input: Seq<char>, k: int)
    requires
        0 <= k <= names.len(),
        forall|i: int| 0 <= i < names.len() ==> (#[trigger] names[i]).len() > 0,
    ensures
        best_name(names, input, input.len() as int, k) is None,
    decreases k,
{
    if k > 0 {
        assert(names[k - 1].len() > 0);
        lemma_no_name(names, input, k - 1);
    }
}

proof fn lemma_tokens_at_end(
    tokens: Seq<TokenView>,
    idx: int,
    input: Seq<char>,
    c: char,
    p: ParsedDate,
)
    requires
        0 <= idx <= tokens.len(),
        text::white_space(c),
        tokens_match(tokens, idx, input, input.len() as int, p) is Some,
    ensures
        tokens_match(tokens, idx, input, input.len() as int, p) == Some((input.len() as int, p)),
        tokens_match(tokens, idx, input.push(c), input.len() as int + 1, p) == Some(
            (input.len() as int + 1, p),
        ),
    decreases tokens.len() - idx,
{
    if idx < tokens.len() {
        lemma_token_at_end(tokens, idx, input, c, p);
        lemma_tokens_at_end(tokens, idx + 1, input, c, p);
    }
}

proof fn lemma_tokens_longer(
    tokens: Seq<TokenView>,
    idx: int,
    input: Seq<char>,
    c: char,
    pos: int,
    p: ParsedDate,
)
    requires
        0 <= idx <= tokens.len(),
        0 <= pos <= input.len(),
        stops(c),
        tokens_match(tokens, idx, input, pos, p) is Some,
    ensures
        ({
            let (end, q) = tokens_match(tokens, idx, input, pos, p)->0;
            &&& pos <= end <= input.len()
            &&& tokens_match(tokens, idx, input.push(c), pos, p) matches Some(longer) && same_end(
                input.len() as int,
                c,
                end,
                longer.0,
            ) && longer.1 == q
        }),
    decreases tokens.len() - idx,
{
    if idx < tokens.len() {
        let (next, q) = token_match(tokens, idx, input, pos, p)->0;
        lemma_token_longer(tokens, idx, input, c, pos, p);
        lemma_tokens_longer(tokens, idx + 1, input, c, next, q);
        if (token_match(tokens, idx, input.push(c), pos, p)->0).0 != next {
            lemma_tokens_at_end(tokens, idx + 1, input, c, q);
        }
    }
}

/// An offset of whole minutes, up to 18 hours and 59 minutes, is read back from its
/// digits, with a colon and without.
pub proof fn law_offset_round_trip(offset: int, colon: bool)
    requires
        -68_340 <= offset <= 68_340,
        offset % 60 == 0,
    ensures
        offset_match(offset_digits(offset, colon), 0) == Some(
            (offset, offset_digits(offset, colon).len() as int),
        ),
{
    let input = offset_digits(offset, colon);
    let abs = magnitude(offset);
    let h = (abs / 3600) as nat;
    let m = (abs % 3600 / 60) as nat;
    let hours = text::padded(h, 2);
    let minutes = text::padded(m, 2);
    text::law_padded_value(h, 2);
    text::law_padded_value(m, 2);
    assert(text::decimal(h).len() <= 2 && text::decimal(m).len() <= 2) by {
        reveal_with_fuel(text::decimal, 3);
    }
    assert(hours.len() == 2 && minutes.len() == 2);
    assert(text::ascii_digit(hours[0]) && text::ascii_digit(hours[1]));
    assert(text::ascii_digit(minutes[0]) && text::ascii_digit(minutes[1]));
    reveal_strlit("GMT");
    reveal_strlit("UTC");
    assert(input[0] == '-' || input[0] == '+');
    assert(!text::eq_ascii_case(input[0], "GMT"@[0]) && !text::eq_ascii_case(
        input[0],
        "UTC"@[0],
    ));
    assert(!text::stands_at(input, 0, "GMT"@)) by {
        if text::stands_at(input, 0, "GMT"@) {
            assert(text::eq_ascii_case(input[0int + 0], "GMT"@[0]));
        }
    }
    assert(!text::stands_at(input, 0, "UTC"@)) by {
        if text::stands_at(input, 0, "UTC"@) {
            assert(text::eq_ascii_case(input[0int + 0], "UTC"@[0]));
        }
    }
    let digits = hours + minutes;
    let none = Seq::<char>::empty();
    assert(input[1] == hours[0] && input[2] == hours[1]);
    reveal_with_fuel(offset_scan, 7);
    let two = none.push(input[1]).push(input[2]);
    assert(two =~= hours);
    if colon {
        assert(input[3] == ':' && input[4] == minutes[0] && input[5] == minutes[1]);
        assert(two.push(input[4]).push(input[5]) =~= digits);
        assert(offset_scan(input, 1, none, None) == (6int, digits, Some(2int)));
    } else {
        assert(input[3] == minutes[0] && input[4] == minutes[1]);
        assert(two.push(input[3]).push(input[4]) =~= digits);
        assert(offset_scan(input, 1, none, None) == (5int, digits, None::<int>));
    }
    assert(digits.take(2) =~= hours);
    assert(digits.skip(2) =~= minutes);
}

/// A text is a number in decimal digits: as many as are asked for, or as many as it needs.
pub open spec fn shows(shown: Seq<char>, v: int, width: int) -> bool {
    &&& text::all_digits(shown)
    &&& text::digits_value(shown) == v
    &&& shown.len() >= width
    &&& shown.len() > width && shown.len() > 1 ==> shown[0] != '0'
}

proof fn lemma_shows(v: int, width: int)
    requires
        v >= 0,
        width >= 0,
    ensures
        shows(signed_padded(v, width), v, width),
{
    text::law_padded_value(v as nat, width as nat);
    text::law_padded_is_short(v as nat, width as nat);
}

/// What the letters for a date show: the year or its last two digits, the month, the day of
/// the month and the day of the year. A year has as many digits as there are letters, a
/// day two at most, and a day of the year three.
pub proof fn law_date_fields(n: int, t: &LocalTime)
    requires
        t.wf(),
        n >= 0,
        t.civil.year >= 0,
    ensures
        n != 2 ==> shows(field_text('y', n, t), t.civil.year as int, n),
        n == 2 ==> shows(field_text('y', n, t), t.civil.year as int % 100, 2),
        field_text('Y', n, t) == field_text('y', n, t),
        field_text('u', n, t) == field_text('y', n, t),
        n == 1 || n == 2 ==> shows(field_text('M', n, t), t.civil.month as int, n),
        field_text('L', n, t) == field_text('M', n, t),
        shows(
            field_text('d', n, t),
            t.civil.day as int,
            if n < 2 {
                n
            } else {
                2
            },
        ),
        shows(
            field_text('D', n, t),
            t.civil.year_day + 1,
            if n < 3 {
                n
            } else {
                3
            },
        ),
{
    lemma_shows(t.civil.year as int, n);
    lemma_shows(t.civil.year as int % 100, 2);
    lemma_shows(t.civil.month as int, n);
    lemma_shows(t.civil.day as int, smaller(n, 2));
    lemma_shows(t.civil.year_day + 1, smaller(n, 3));
}

/// What the letters for the hour show: it is counted from 0 or from 1 on, for a whole day
/// or for half of one, with two digits at most.
pub proof fn law_hour_fields(n: int, t: &LocalTime)
    requires
        t.wf(),
        n >= 0,
    ensures
        ({
            let two: int = if n < 2 {
                n
            } else {
                2
            };
            let hour = t.civil.hour as int;
            &&& shows(field_text('H', n, t), hour, two)
            &&& shows(field_text('k', n, t), (hour + 23) % 24 + 1, two)
            &&& shows(field_text('h', n, t), (hour + 11) % 12 + 1, two)
            &&& shows(field_text('K', n, t), hour % 12, two)
        }),
{
    let two = smaller(n, 2);
    let hour = t.civil.hour as int;
    let from_one: int = if hour == 0 {
        24
    } else {
        hour
    };
    let half: int = if hour % 12 == 0 {
        12
    } else {
        hour % 12
    };
    assert(from_one == (hour + 23) % 24 + 1);
    assert(half == (hour + 11) % 12 + 1);
    assert(field_text('H', n, t) == signed_padded(hour, two));
    assert(field_text('k', n, t) == signed_padded(from_one, two));
    assert(field_text('h', n, t) == signed_padded(half, two));
    assert(field_text('K', n, t) == signed_padded(hour % 12, two));
    lemma_shows(hour, two);
    lemma_shows(from_one, two);
    lemma_shows(half, two);
    lemma_shows(hour % 12, two);
}

/// What the letters for the minute, the second and its fraction show.
pub proof fn law_minute_fields(n: int, t: &LocalTime)
    requires
        t.wf(),
        n >= 0,
    ensures
        ({
            let two: int = if n < 2 {
                n
            } else {
                2
            };
            let nine: int = if n < 9 {
                n
            } else {
                9
            };
            &&& shows(field_text('m', n, t), t.civil.minute as int, two)
            &&& shows(field_text('s', n, t), t.civil.second as int, two)
            &&& shows(field_text('S', n, t), t.fraction@[nine] as int, nine)
        }),
{
    lemma_shows(t.civil.minute as int, smaller(n, 2));
    lemma_shows(t.civil.second as int, smaller(n, 2));
    lemma_shows(t.fraction@[smaller(n, 9)] as int, smaller(n, 9));
}

/// A year before the year 0 is shown with a sign.
pub proof fn law_year_with_sign(n: int, t: &LocalTime)
    requires
        t.wf(),
        n >= 0,
        n != 2,
        t.civil.year < 0,
    ensures
        field_text('y', n, t).len() > 0,
        field_text('y', n, t)[0] == '-',
        text::digits_value(field_text('y', n, t).drop_first()) == -t.civil.year,
{
    let digits = text::padded((-t.civil.year) as nat, n as nat);
    text::law_padded_value((-t.civil.year) as nat, n as nat);
    assert(field_text('y', n, t).drop_first() =~= digits);
}

/// The half of the day is `AM` up to noon and `PM` from then on.
pub proof fn law_half_of_day(n: int, t: &LocalTime)
    requires
        t.wf(),
    ensures
        field_text('a', n, t) == seq!['A', 'M'] <==> t.civil.hour <= 11,
        field_text('a', n, t) == seq!['P', 'M'] <==> t.civil.hour >= 12,
{
    reveal_strlit("AM");
    reveal_strlit("PM");
    assert("AM"@ =~= seq!['A', 'M']);
    assert("PM"@ =~= seq!['P', 'M']);
    assert(seq!['A', 'M'][0] != seq!['P', 'M'][0]);
}

/// The hour that was shown is read back: from 0 or 1 on for a whole day, and for the half
/// of a day that is named.
pub proof fn law_hour_round_trip(p: ParsedDate, n: int, digits: int, hour: int)
    requires
        0 <= hour < 24,
        !p.hour_is_12h,
    ensures
        hour_of_day(with_number(p, 'H', n, hour as i64, digits)) == hour,
        hour_of_day(with_number(p, 'k', n, ((hour + 23) % 24 + 1) as i64, digits)) == hour,
        ({
            let read = with_number(p, 'h', n, ((hour + 11) % 12 + 1) as i64, digits);
            hour_of_day(ParsedDate { pm: Some(hour >= 12), ..read }) == hour
        }),
        ({
            let read = with_number(p, 'K', n, (hour % 12) as i64, digits);
            hour_of_day(ParsedDate { pm: Some(hour >= 12), ..read }) == hour
        }),
{
}

/// What a number that has been read is: the part of the date that the letter shows. A year
/// with two letters and two digits is one from 1950 to 2049; a day of the year counts from
/// the first of January.
pub proof fn law_number_is_read(p: ParsedDate, n: int, v: i64, digits: int)
    requires
        0 <= v,
        0 <= digits <= 18,
    ensures
        n != 2 || digits != 2 ==> with_number(p, 'y', n, v, digits) == (ParsedDate { year: v, ..p }),
        n == 2 && digits == 2 && v <= 99 ==> {
            let year = with_number(p, 'y', n, v, digits).year;
            1950 <= year <= 2049 && year % 100 == v
        },
        with_number(p, 'Y', n, v, digits) == with_number(p, 'y', n, v, digits),
        with_number(p, 'u', n, v, digits) == with_number(p, 'y', n, v, digits),
        with_number(p, 'M', n, v, digits) == (ParsedDate { month: v, ..p }),
        with_number(p, 'L', n, v, digits) == (ParsedDate { month: v, ..p }),
        with_number(p, 'd', n, v, digits) == (ParsedDate { day: v, ..p }),
        with_number(p, 'D', n, v, digits) == (ParsedDate { month: 1, day: v, ..p }),
        with_number(p, 'm', n, v, digits) == (ParsedDate { minute: v, ..p }),
        with_number(p, 's', n, v, digits) == (ParsedDate { second: v, ..p }),
        with_number(p, 'S', n, v, digits) == (ParsedDate {
            fraction: v,
            fraction_digits: digits as usize,
            ..p
        }),
{
}

/// Which parts of a date a text may give: only those of a date that there is, or a leap
/// second, or the end of a day. Any hour of a half day counts for the half that is named.
pub proof fn law_parsed_in_range(tokens: Seq<TokenView>, input: Seq<char>)
    ensures
        date_parse(tokens, input) matches Some(p) ==> {
            &&& p.year <= 1_000_000
            &&& 1 <= p.month <= 12
            &&& 1 <= p.day <= 366
            &&& !has_field(tokens, 0, 'D') ==> p.day <= 31
            &&& !has_field(tokens, 0, 'D') && (p.month == 4 || p.month == 6 || p.month == 9
                || p.month == 11) ==> p.day <= 30
            &&& !has_field(tokens, 0, 'D') && p.month == 2 ==> p.day <= if p.year % 4 == 0 && (
            p.year % 100 != 0 || p.year % 400 == 0) {
                29int
            } else {
                28
            }
            &&& 0 <= p.hour <= 24
            &&& 0 <= p.minute <= 59
            &&& 0 <= p.second <= 60
        },
{
    if let Some((pos, p)) = tokens_match(tokens, 0, input, 0, default_date()) {
        if has_day_of_year(tokens) {
            let i = choose|i: int|
                0 <= i < tokens.len() && (#[trigger] tokens[i] matches TokenView::Field(c, n) && c
                    == 'D');
            assert(is_field(tokens[i], 'D'));
        }
    }
}

/// An offset that the text gives counts, whatever the time zone of the formatter is; else
/// that of the time zone does.
pub proof fn law_offset_of_text_counts(p: ParsedDate, offset: i32, zone_offset: int, other: int)
    ensures
        parsed_second(ParsedDate { offset: Some(offset), ..p }, zone_offset) == parsed_second(
            ParsedDate { offset: None, ..p },
            offset as int,
        ),
        parsed_second(ParsedDate { offset: None, ..p }, zone_offset) + zone_offset == parsed_second(
            ParsedDate { offset: None, ..p },
            other,
        ) + other,
{
}

/// What the other letters of a pattern show: names, the era, the offset and its name, and
/// letters without a meaning as they are.
pub proof fn law_text_fields(c: char, n: int, t: &LocalTime)
    requires
        t.wf(),
        n >= 0,
    ensures
        n == 3 ==> field_text('M', n, t) == month_names()[t.civil.month - 1].take(3),
        n > 3 ==> field_text('M', n, t) == month_names()[t.civil.month - 1],
        n <= 3 ==> field_text('E', n, t) == weekday_names()[t.civil.weekday as int].take(3),
        n > 3 ==> field_text('E', n, t) == weekday_names()[t.civil.weekday as int],
        field_text('G', n, t) == seq!['A', 'D'],
        field_text('z', n, t) == t.zone_name@,
        1 <= n <= 3 ==> field_text('Z', n, t) == offset_digits(t.offset as int, false),
        n == 4 && t.offset != 0 ==> field_text('Z', n, t) == seq!['G', 'M', 'T'] + offset_digits(
            t.offset as int,
            true,
        ),
        n == 4 && t.offset == 0 ==> field_text('Z', n, t) == seq!['G', 'M', 'T'],
        n > 4 && t.offset != 0 ==> field_text('Z', n, t) == offset_digits(t.offset as int, true),
        n > 4 && t.offset == 0 ==> field_text('Z', n, t) == seq!['Z'],
        c == 'b' || c == 'q' || c == 'w' || c == 'X' ==> field_text(c, n, t) == Seq::new(
            n as nat,
            |i: int| c,
        ),
{
    reveal_strlit("AD");
    reveal_strlit("GMT");
    assert("AD"@ =~= seq!['A', 'D']);
    assert("GMT"@ =~= seq!['G', 'M', 'T']);
    law_short_names();
}

/// The names of the months and of the days of the week, from January and from Sunday on;
/// the short ones are their first three letters.
pub proof fn law_short_names()
    ensures
        month_names().len() == 12,
        weekday_names().len() == 7,
        month_abbreviations().len() == 12,
        weekday_abbreviations().len() == 7,
        forall|i: int|
            0 <= i < 12 ==> #[trigger] month_abbreviations()[i] == month_names()[i].take(3),
        forall|i: int|
            0 <= i < 7 ==> #[trigger] weekday_abbreviations()[i] == weekday_names()[i].take(3),
        month_names()[0] == "January"@,
        month_names()[1] == "February"@,
        month_names()[2] == "March"@,
        month_names()[3] == "April"@,
        month_names()[4] == "May"@,
        month_names()[5] == "June"@,
        month_names()[6] == "July"@,
        month_names()[7] == "August"@,
        month_names()[8] == "September"@,
        month_names()[9] == "October"@,
        month_names()[10] == "November"@,
        month_names()[11] == "December"@,
        weekday_names()[0] == "Sunday"@,
        weekday_names()[1] == "Monday"@,
        weekday_names()[2] == "Tuesday"@,
        weekday_names()[3] == "Wednesday"@,
        weekday_names()[4] == "Thursday"@,
        weekday_names()[5] == "Friday"@,
        weekday_names()[6] == "Saturday"@,
{
    reveal_strlit("January");
    reveal_strlit("February");
    reveal_strlit("March");
    reveal_strlit("April");
    reveal_strlit("May");
    reveal_strlit("June");
    reveal_strlit("July");
    reveal_strlit("August");
    reveal_strlit("September");
    reveal_strlit("October");
    reveal_strlit("November");
    reveal_strlit("December");
    reveal_strlit("Jan");
    reveal_strlit("Feb");
    reveal_strlit("Mar");
    reveal_strlit("Apr");
    reveal_strlit("Jun");
    reveal_strlit("Jul");
    reveal_strlit("Aug");
    reveal_strlit("Sep");
    reveal_strlit("Oct");
    reveal_strlit("Nov");
    reveal_strlit("Dec");
    reveal_strlit("Sunday");
    reveal_strlit("Monday");
    reveal_strlit("Tuesday");
    reveal_strlit("Wednesday");
    reveal_strlit("Thursday");
    reveal_strlit("Friday");
    reveal_strlit("Saturday");
    reveal_strlit("Sun");
    reveal_strlit("Mon");
    reveal_strlit("Tue");
    reveal_strlit("Wed");
    reveal_strlit("Thu");
    reveal_strlit("Fri");
    reveal_strlit("Sat");
    assert("Jan"@ =~= "January"@.take(3));
    assert("Feb"@ =~= "February"@.take(3));
    assert("Mar"@ =~= "March"@.take(3));
    assert("Apr"@ =~= "April"@.take(3));
    assert("May"@ =~= "May"@.take(3));
    assert("Jun"@ =~= "June"@.take(3));
    assert("Jul"@ =~= "July"@.take(3));
    assert("Aug"@ =~= "August"@.take(3));
    assert("Sep"@ =~= "September"@.take(3));
    assert("Oct"@ =~= "October"@.take(3));
    assert("Nov"@ =~= "November"@.take(3));
    assert("Dec"@ =~= "December"@.take(3));
    assert("Sun"@ =~= "Sunday"@.take(3));
    assert("Mon"@ =~= "Monday"@.take(3));
    assert("Tue"@ =~= "Tuesday"@.take(3));
    assert("Wed"@ =~= "Wednesday"@.take(3));
    assert("Thu"@ =~= "Thursday"@.take(3));
    assert("Fri"@ =~= "Friday"@.take(3));
    assert("Sat"@ =~= "Saturday"@.take(3));
}

/// An offset is shown by its sign, its hours and its minutes, with two digits each.
pub proof fn law_offset_text(offset: int, colon: bool)
    requires
        -360_000 < offset < 360_000,
    ensures
        ({
            let shown = offset_digits(offset, colon);
            let abs = if offset < 0 {
                -offset
            } else {
                offset
            };
            let gap: int = if colon {
                1
            } else {
                0
            };
            &&& shown.len() == 5 + gap
            &&& shown[0] == if offset < 0 {
                '-'
            } else {
                '+'
            }
            &&& text::all_digits(shown.subrange(1, 3))
            &&& text::all_digits(shown.subrange(3 + gap, 5 + gap))
            &&& colon ==> shown[3] == ':'
            &&& text::digits_value(shown.subrange(3 + gap, 5 + gap)) < 60
            &&& 3600 * text::digits_value(shown.subrange(1, 3)) + 60 * text::digits_value(
                shown.subrange(3 + gap, 5 + gap),
            ) == abs - abs % 60
        }),
{
    let shown = offset_digits(offset, colon);
    let abs = magnitude(offset);
    let h = (abs / 3600) as nat;
    let m = (abs % 3600 / 60) as nat;
    let gap: int = if colon {
        1
    } else {
        0
    };
    text::law_padded_value(h, 2);
    text::law_padded_value(m, 2);
    assert(text::decimal(h).len() <= 2 && text::decimal(m).len() <= 2) by {
        reveal_with_fuel(text::decimal, 3);
    }
    assert(shown.subrange(1, 3) =~= text::padded(h, 2));
    assert(shown.subrange(3 + gap, 5 + gap) =~= text::padded(m, 2));
}

/// A pattern that begins with a run of a letter begins with that field.
pub proof fn law_pattern_begins_with_field(c: char, n: int, rest: Seq<char>)
    requires
        ('a' <= c <= 'z') || ('A' <= c <= 'Z'),
        n >= 1,
        rest.len() > 0 ==> rest[0] != c,
    ensures
        pattern_tokens(Seq::new(n as nat, |i: int| c) + rest, 0, Seq::empty(), false) == seq![
            TokenView::Field(c, n),
        ] + pattern_tokens(rest, 0, Seq::empty(), false),
{
    let run = Seq::new(n as nat, |i: int| c);
    let chars = run + rest;
    lemma_run_of(chars, 1, n, c);
    lemma_pattern_moved(run, rest, 0, Seq::empty(), false);
    assert(chars[0] == c);
    assert(flushed(Seq::empty()).push(TokenView::Field(c, n)) =~= seq![TokenView::Field(c, n)]);
}

proof fn lemma_run_of(chars: Seq<char>, i: int, end: int, c: char)
    requires
        0 <= i <= end <= chars.len(),
        forall|k: int| i <= k < end ==> #[trigger] chars[k] == c,
        end < chars.len() ==> chars[end] != c,
    ensures
        run_length(chars, i, c) == end - i,
    decreases end - i,
{
    if i < end {
        lemma_run_of(chars, i + 1, end, c);
    }
}

proof fn lemma_run_moved(front: Seq<char>, rest: Seq<char>, i: int, c: char)
    requires
        0 <= i <= rest.len(),
    ensures
        run_length(front + rest, front.len() + i, c) == run_length(rest, i, c),
    decreases rest.len() - i,
{
    if i < rest.len() {
        assert((front + rest)[front.len() + i] == rest[i]);
        if rest[i] == c {
            lemma_run_moved(front, rest, i + 1, c);
        }
    }
}

proof fn lemma_pattern_moved(
    front: Seq<char>,
    rest: Seq<char>,
    i: int,
    literal: Seq<char>,
    quoted: bool,
)
    requires
        0 <= i,
    ensures
        pattern_tokens(front + rest, front.len() + i, literal, quoted) == pattern_tokens(
            rest,
            i,
            literal,
            quoted,
        ),
    decreases rest.len() - i,
{
    let chars = front + rest;
    if i < rest.len() {
        assert(chars[front.len() + i] == rest[i]);
        if i + 1 < rest.len() {
            assert(chars[front.len() + i + 1] == rest[i + 1]);
        }
        if rest[i] == '\'' {
            assert(quote_at(chars, front.len() + i + 1) == quote_at(rest, i + 1));
            if quote_at(rest, i + 1) {
                lemma_pattern_moved(front, rest, i + 2, literal.push('\''), quoted);
            } else {
                lemma_pattern_moved(front, rest, i + 1, literal, !quoted);
            }
        } else if !quoted && text::ascii_alphabetic(rest[i]) {
            lemma_run_moved(front, rest, i + 1, rest[i]);
            lemma_run_length(rest, i + 1, rest[i]);
            let n = 1 + run_length(rest, i + 1, rest[i]);
            lemma_pattern_moved(front, rest, i + n, Seq::empty(), false);
        } else {
            lemma_pattern_moved(front, rest, i + 1, literal.push(rest[i]), quoted);
        }
    }
}

/// What stands in quotes is literal, letters too.
pub proof fn law_quoted_is_literal(inner: Seq<char>)
    requires
        inner.len() > 0,
        forall|i: int| 0 <= i < inner.len() ==> #[trigger] inner[i] != '\'',
    ensures
        pattern_tokens(seq!['\''] + inner + seq!['\''], 0, Seq::empty(), false) == seq![
            TokenView::Literal(inner),
        ],
{
    let chars = seq!['\''] + inner + seq!['\''];
    assert(chars[0] == '\'');
    assert(chars[1] == inner[0]);
    lemma_quoted(chars, inner, 0);
    assert(inner.take(0) =~= Seq::empty());
}

proof fn lemma_quoted(chars: Seq<char>, inner: Seq<char>, i: int)
    requires
        chars == seq!['\''] + inner + seq!['\''],
        inner.len() > 0,
        forall|k: int| 0 <= k < inner.len() ==> #[trigger] inner[k] != '\'',
        0 <= i <= inner.len(),
    ensures
        pattern_tokens(chars, 1 + i, inner.take(i), true) == seq![TokenView::Literal(inner)],
    decreases inner.len() - i,
{
    if i < inner.len() {
        assert(chars[1 + i] == inner[i]);
        lemma_quoted(chars, inner, i + 1);
        assert(inner.take(i).push(inner[i]) =~= inner.take(i + 1));
    } else {
        assert(chars[1 + i] == '\'');
        assert(inner.take(i) =~= inner);
        assert(pattern_tokens(chars, 2 + i, inner, false) == flushed(inner));
    }
}

/// Two quotes stand for one.
pub proof fn law_two_quotes(quoted: bool, literal: Seq<char>, rest: Seq<char>)
    ensures
        pattern_tokens(seq!['\'', '\''] + rest, 0, literal, quoted) == pattern_tokens(
            rest,
            0,
            literal.push('\''),
            quoted,
        ),
{
    let front = seq!['\'', '\''];
    assert((front + rest)[0] == '\'' && (front + rest)[1] == '\'');
    lemma_pattern_moved(front, rest, 0, literal.push('\''), quoted);
}

/// The texts of the tokens follow each other, and a literal is shown as it is.
pub proof fn law_date_text(tokens: Seq<TokenView>, token: TokenView, t: &LocalTime, s: Seq<char>)
    ensures
        date_text(Seq::empty(), t).len() == 0,
        date_text(tokens.push(token), t) == date_text(tokens, t) + token_text(token, t),
        token_text(TokenView::Literal(s), t) == s,
{
    assert(tokens.push(token).drop_last() =~= tokens);
}

/// A literal without white space matches where it stands and nowhere else.
pub proof fn law_literal_matches(input: Seq<char>, pos: int, literal: Seq<char>)
    requires
        0 <= pos <= input.len(),
        forall|i: int| 0 <= i < literal.len() ==> !text::white_space(#[trigger] literal[i]),
    ensures
        literal_match(input, pos, literal) == if pos + literal.len() <= input.len()
            && input.subrange(pos, pos + literal.len()) == literal {
            Some(pos + literal.len())
        } else {
            None
        },
    decreases literal.len(),
{
    if literal.len() == 0 {
        assert(input.subrange(pos, pos) =~= literal);
    } else {
        let rest = literal.drop_first();
        assert(!text::white_space(literal[0]));
        assert forall|i: int| 0 <= i < rest.len() implies !text::white_space(
            #[trigger] rest[i],
        ) by {
            assert(rest[i] == literal[i + 1]);
        }
        if pos < input.len() && input[pos] == literal[0] {
            law_literal_matches(input, pos + 1, rest);
            if pos + literal.len() <= input.len() {
                let part = input.subrange(pos, pos + literal.len());
                let tail = input.subrange(pos + 1, pos + literal.len());
                assert(tail =~= part.drop_first());
                if tail == rest {
                    assert forall|k: int| 0 <= k < literal.len() implies part[k] == literal[k] by {
                        if k > 0 {
                            assert(tail[k - 1] == rest[k - 1]);
                        }
                    }
                    assert(part =~= literal);
                }
            }
        } else if pos + literal.len() <= input.len() {
            assert(input.subrange(pos, pos + literal.len())[0] == input[pos]);
        }
    }
}

/// The longest name that stands at a place is found, without regard to case; there is none
/// only if no name stands there.
pub proof fn law_name_is_found(names: Seq<Seq<char>>, input: Seq<char>, pos: int)
    ensures
        match name_match(names, input, pos) {
            Some((i, next)) => {
                &&& 0 <= i < names.len()
                &&& next == pos + names[i].len()
                &&& text::stands_at(input, pos, names[i])
                &&& forall|j: int|
                    0 <= j < names.len() && text::stands_at(input, pos, #[trigger] names[j])
                        ==> names[j].len() <= names[i].len()
            },
            None => forall|j: int|
                0 <= j < names.len() ==> !text::stands_at(input, pos, #[trigger] names[j]),
        },
{
    lemma_best_name(names, input, pos, names.len() as int);
}

/// The half of a day that is named at a place is read from it.
pub proof fn law_half_of_day_is_read(
    tokens: Seq<TokenView>,
    idx: int,
    n: int,
    input: Seq<char>,
    pos: int,
    p: ParsedDate,
)
    requires
        0 <= idx < tokens.len(),
        tokens[idx] == TokenView::Field('a', n),
        0 <= pos,
    ensures
        text::stands_at(input, pos, seq!['A', 'M']) ==> token_match(tokens, idx, input, pos, p)
            == Some((pos + 2, ParsedDate { pm: Some(false), ..p })),
        text::stands_at(input, pos, seq!['P', 'M']) ==> token_match(tokens, idx, input, pos, p)
            == Some((pos + 2, ParsedDate { pm: Some(true), ..p })),
        !text::stands_at(input, pos, seq!['A', 'M']) && !text::stands_at(
            input,
            pos,
            seq!['P', 'M'],
        ) ==> token_match(tokens, idx, input, pos, p) is None,
{
    reveal_strlit("AM");
    reveal_strlit("PM");
    let names = half_day_names();
    assert("AM"@ =~= seq!['A', 'M']);
    assert("PM"@ =~= seq!['P', 'M']);
    lemma_best_name(names, input, pos, 2);
    assert(names[0] == seq!['A', 'M'] && names[1] == seq!['P', 'M']);
    if text::stands_at(input, pos, names[0]) && text::stands_at(input, pos, names[1]) {
        assert(text::eq_ascii_case(input[pos + 0], names[0][0]));
        assert(text::eq_ascii_case(input[pos + 0], names[1][0]));
    }
}

/// The month that is named at a place is read from it, by its whole name or else by the
/// short one.
pub proof fn law_month_is_read(
    tokens: Seq<TokenView>,
    idx: int,
    n: int,
    input: Seq<char>,
    pos: int,
    p: ParsedDate,
)
    requires
        0 <= idx < tokens.len(),
        n >= 3,
        tokens[idx] == TokenView::Field('M', n) || tokens[idx] == TokenView::Field('L', n),
    ensures
        match token_match(tokens, idx, input, pos, p) {
            Some((next, q)) => {
                &&& 1 <= q.month <= 12
                &&& q == (ParsedDate { month: q.month, ..p })
                &&& ({
                    let name = month_names()[q.month - 1];
                    ||| next == pos + name.len() && text::stands_at(input, pos, name)
                    ||| next == pos + 3 && text::stands_at(input, pos, name.take(3)) && forall|
                        m: int,
                    |
                        0 <= m < 12 ==> !text::stands_at(input, pos, #[trigger] month_names()[m])
                })
            },
            None => forall|m: int|
                0 <= m < 12 ==> !text::stands_at(
                    input,
                    pos,
                    (#[trigger] month_names()[m]).take(3),
                ),
        },
{
    law_short_names();
    lemma_reveal_lengths();
    lemma_best_name(month_names(), input, pos, 12);
    lemma_best_name(month_abbreviations(), input, pos, 12);
    if token_match(tokens, idx, input, pos, p) is None {
        assert forall|m: int| 0 <= m < 12 implies !text::stands_at(
            input,
            pos,
            (#[trigger] month_names()[m]).take(3),
        ) by {
            assert(month_abbreviations()[m] == month_names()[m].take(3));
            assert(!text::stands_at(input, pos, month_abbreviations()[m]));
        }
    }
}

proof fn lemma_reveal_lengths()
    ensures
        forall|m: int| 0 <= m < 12 ==> (#[trigger] month_abbreviations()[m]).len() == 3,
{
    reveal_strlit("Jan");
    reveal_strlit("Feb");
    reveal_strlit("Mar");
    reveal_strlit("Apr");
    reveal_strlit("May");
    reveal_strlit("Jun");
    reveal_strlit("Jul");
    reveal_strlit("Aug");
    reveal_strlit("Sep");
    reveal_strlit("Oct");
    reveal_strlit("Nov");
    reveal_strlit("Dec");
}

/// Parts that a text does not give are those of the Unix epoch.
pub proof fn law_missing_parts()
    ensures
        ({
            let p = default_date();
            &&& civil::timestamp(
                p.year as int,
                p.month - 1,
                p.day as int,
                p.hour as int,
                p.minute as int,
                p.second as int,
            ) == 0
            &&& p.pm is None && p.offset is None && !p.hour_is_12h && p.fraction == 0
        }),
{
    civil::law_timestamp_counts(1970, 0, 1, 0, 0, 0);
}

/// A number takes as many digits as its field has letters where another number follows it
/// at once, a year that is not of two letters takes four, and any number all digits where
/// none follows.
pub proof fn law_digits_of_fields(
    tokens: Seq<TokenView>,
    idx: int,
    c: char,
    n: int,
    next: char,
    m: int,
)
    requires
        0 <= idx,
        n >= 1,
    ensures
        idx + 1 >= tokens.len() ==> field_digits(tokens, idx, c, n) == 18,
        idx + 1 < tokens.len() && tokens[idx + 1] is Literal ==> field_digits(tokens, idx, c, n)
            == 18,
        idx + 1 < tokens.len() && tokens[idx + 1] == TokenView::Field(next, m) && (next == 'H'
            || next == 'm' || next == 's' || next == 'd' || next == 'y' || (next == 'M' && m <= 2))
            ==> field_digits(tokens, idx, c, n) == if (c == 'y' || c == 'Y' || c == 'u') && n != 2 {
            4
        } else {
            n
        },
        idx + 1 < tokens.len() && tokens[idx + 1] == TokenView::Field(next, m) && (next == 'a'
            || next == 'E' || next == 'Z' || (next == 'M' && m > 2)) ==> field_digits(
            tokens,
            idx,
            c,
            n,
        ) == 18,
{
}

/// White space of a text is passed over up to the next other character.
pub proof fn law_space_is_passed(input: Seq<char>, pos: int, end: int)
    requires
        0 <= pos <= end <= input.len(),
        forall|k: int| pos <= k < end ==> text::white_space(#[trigger] input[k]),
        end < input.len() ==> !text::white_space(input[end]),
    ensures
        skip_space(input, pos) == end,
    decreases end - pos,
{
    if pos < end {
        law_space_is_passed(input, pos + 1, end);
    }
}

/// An offset is a `Z`, which is none, or a sign with hours and minutes. `GMT` or `UTC` may
/// stand before the sign, and alone is none too. It has whole minutes and stays below
/// nineteen hours.
pub proof fn law_offset_is_read(input: Seq<char>, pos: int)
    requires
        0 <= pos,
    ensures
        pos < input.len() && (input[pos] == 'Z' || input[pos] == 'z') ==> offset_match(input, pos)
            == Some((0int, pos + 1)),
        pos >= input.len() ==> offset_match(input, pos) is None,
        pos < input.len() && text::ascii_digit(input[pos]) ==> offset_match(input, pos) is None,
        text::stands_at(input, pos, "GMT"@) || text::stands_at(input, pos, "UTC"@) ==> {
            let next = pos + 3;
            &&& next >= input.len() ==> offset_match(input, pos) == Some((0int, next))
            &&& next < input.len() && input[next] != '+' && input[next] != '-' ==> offset_match(
                input,
                pos,
            ) == Some((0int, next))
            &&& next < input.len() && (input[next] == '+' || input[next] == '-') ==> offset_match(
                input,
                pos,
            ) == offset_match(input, next)
        },
        offset_match(input, pos) matches Some((offset, end)) ==> -68_340 <= offset <= 68_340
            && offset % 60 == 0,
        pos < input.len() && input[pos] == '+' ==> (offset_match(input, pos) matches Some(
            (offset, end),
        ) ==> offset >= 0),
        pos < input.len() && input[pos] == '-' ==> (offset_match(input, pos) matches Some(
            (offset, end),
        ) ==> offset <= 0),
{
    reveal_strlit("GMT");
    reveal_strlit("UTC");
    let gmt = "GMT"@;
    let utc = "UTC"@;
    assert(gmt.len() == 3 && utc.len() == 3 && gmt[0] == 'G' && utc[0] == 'U');
    assert forall|at: int|
        0 <= at < input.len() && (#[trigger] text::stands_at(input, at, gmt) || text::stands_at(
            input,
            at,
            utc,
        )) implies input[at] != 'Z' && input[at] != 'z' && input[at] != '+' && input[at] != '-'
        && !text::ascii_digit(input[at]) by {
        if text::stands_at(input, at, gmt) {
            assert(text::eq_ascii_case(input[at + 0], gmt[0]));
        } else {
            assert(text::eq_ascii_case(input[at + 0], utc[0]));
        }
    }
    assert(text::stands_at(input, pos, gmt) || !text::stands_at(input, pos, gmt));
    assert(text::stands_at(input, pos + 3, gmt) || !text::stands_at(input, pos + 3, gmt));
    let start = if text::stands_at(input, pos, gmt) || text::stands_at(input, pos, utc) {
        pos + 3
    } else {
        pos
    };
    let next = pos + 3;
    if next < input.len() && (input[next] == '+' || input[next] == '-') {
        assert(!text::stands_at(input, next, gmt));
        assert(!text::stands_at(input, next, utc));
        if start == next {
            assert(offset_match(input, pos) == offset_match(input, next));
        }
    }
    let (q, digits, colon) = offset_scan(input, start + 1, Seq::empty(), None);
    lemma_scanned_digits(input, start + 1, Seq::empty(), None);
    match colon {
        Some(at) => {
            lemma_value_not_negative(digits.take(at));
            lemma_value_not_negative(digits.skip(at));
        },
        None => {
            lemma_value_not_negative(digits);
            if digits.len() == 4 {
                lemma_value_not_negative(digits.take(2));
                lemma_value_not_negative(digits.skip(2));
            }
        },
    }
}

proof fn lemma_scanned_digits(input: Seq<char>, p: int, digits: Seq<char>, colon: Option<int>)
    requires
        text::all_digits(digits),
        colon matches Some(at) ==> 0 <= at <= digits.len(),
    ensures
        text::all_digits(offset_scan(input, p, digits, colon).1),
        offset_scan(input, p, digits, colon).2 matches Some(at) ==> 0 <= at <= offset_scan(
            input,
            p,
            digits,
            colon,
        ).1.len(),
    decreases input.len() - p,
{
    if 0 <= p < input.len() && digits.len() < 4 {
        if text::ascii_digit(input[p]) {
            lemma_scanned_digits(input, p + 1, digits.push(input[p]), colon);
        } else if input[p] == ':' && colon is None && digits.len() > 0 {
            lemma_scanned_digits(input, p + 1, digits, Some(digits.len() as int));
        }
    }
}

proof fn lemma_value_not_negative(digits: Seq<char>)
    requires
        text::all_digits(digits),
    ensures
        text::digits_value(digits) >= 0,
    decreases digits.len(),
{
    if digits.len() > 0 {
        assert(text::ascii_digit(digits[digits.len() - 1]));
        lemma_value_not_negative(digits.drop_last());
    }
}

} // verus!
