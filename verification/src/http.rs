//! HTTP as far as the library needs it: the responses it understands, and which
//! of the game's web resources are served from where.
use crate::string_encoding::{bytes_between, push_bytes, utf8_text};
use crate::text;
use crate::text::{chars_of, is_white_space, same_chars, slice_chars};
use vstd::prelude::*;
use vstd::utf8;

verus! {

/// Whether some bytes stand at a position.
pub open spec fn bytes_at(bytes: Seq<u8>, part: Seq<u8>, at: int) -> bool {
    &&& 0 <= at
    &&& at + part.len() <= bytes.len()
    &&& bytes.subrange(at, at + part.len()) == part
}

/// The first position at which some bytes stand.
pub open spec fn first_at(bytes: Seq<u8>, part: Seq<u8>, at: int) -> bool {
    &&& bytes_at(bytes, part, at)
    &&& forall|i: int| #[trigger] bytes_at(bytes, part, i) ==> at <= i
}

fn stands_here(bytes: &Vec<u8>, part: &Vec<u8>, at: usize) -> (yes: bool)
    requires
        at <= bytes@.len(),
    ensures
        yes == bytes_at(bytes@, part@, at as int),
{
    if part.len() > bytes.len() - at {
        return false;
    }
    let mut k: usize = 0;
    while k < part.len()
        invariant
            k <= part@.len(),
            at + part@.len() <= bytes.len(),
            forall|j: int| 0 <= j < k ==> bytes@[at + j] == #[trigger] part@[j],
        decreases part@.len() - k,
    {
        if bytes[at + k] != part[k] {
            assert(bytes@.subrange(at as int, at + part@.len())[k as int] != part@[k as int]);
            return false;
        }
        k = k + 1;
    }
    assert(bytes@.subrange(at as int, at + part@.len()) =~= part@);
    true
}

/// The first position at which some bytes stand.
pub fn find_bytes(bytes: &Vec<u8>, part: &Vec<u8>) -> (found: Option<usize>)
    ensures
        match found {
            Some(at) => first_at(bytes@, part@, at as int),
            None => forall|i: int| !#[trigger] bytes_at(bytes@, part@, i),
        },
{
    let mut i: usize = 0;
    while i < bytes.len()
        invariant
            i <= bytes@.len(),
            forall|j: int| 0 <= j < i ==> !#[trigger] bytes_at(bytes@, part@, j),
        decreases bytes@.len() - i,
    {
        if stands_here(bytes, part, i) {
            return Some(i);
        }
        i = i + 1;
    }
    if stands_here(bytes, part, i) {
        return Some(i);
    }
    None
}

/// Where the first of some bytes stands, or nothing.
pub open spec fn position(bytes: Seq<u8>, part: Seq<u8>) -> Option<int> {
    if exists|at: int| first_at(bytes, part, at) {
        Some(choose|at: int| first_at(bytes, part, at))
    } else {
        None
    }
}

proof fn lemma_position(bytes: Seq<u8>, part: Seq<u8>, found: Option<usize>)
    requires
        match found {
            Some(at) => first_at(bytes, part, at as int),
            None => forall|i: int| !#[trigger] bytes_at(bytes, part, i),
        },
    ensures
        position(bytes, part) == match found {
            Some(at) => Some(at as int),
            None => None,
        },
{
    if let Some(at) = found {
        let chosen = choose|at: int| first_at(bytes, part, at);
        assert(first_at(bytes, part, at as int));
        assert(bytes_at(bytes, part, chosen));
        assert(bytes_at(bytes, part, at as int));
    }
}

fn find(bytes: &Vec<u8>, part: &Vec<u8>) -> (found: Option<usize>)
    ensures
        position(bytes@, part@) == match found {
            Some(at) => Some(at as int),
            None => None,
        },
        found matches Some(at) ==> at + part@.len() <= bytes.len(),
{
    let found: Option<usize> = find_bytes(bytes, part);
    proof {
        lemma_position(bytes@, part@, found);
    }
    found
}

fn line_break() -> (bytes: Vec<u8>)
    ensures
        bytes@ == crlf(),
{
    let mut out: Vec<u8> = Vec::new();
    out.push(13);
    out.push(10);
    assert(out@ =~= crlf());
    out
}

pub open spec fn crlf() -> Seq<u8> {
    seq![13u8, 10u8]
}

/// The value of a hexadecimal digit.
pub open spec fn hex_value(c: char) -> Option<int> {
    if '0' <= c <= '9' {
        Some(c as u32 - 48)
    } else if 'a' <= c <= 'f' {
        Some(c as u32 - 87)
    } else if 'A' <= c <= 'F' {
        Some(c as u32 - 55)
    } else {
        None
    }
}

fn hex_digit(c: char) -> (v: Option<usize>)
    ensures
        match v {
            Some(d) => hex_value(c) == Some(d as int) && d < 16,
            None => hex_value(c) is None,
        },
{
    if '0' <= c && c <= '9' {
        Some((c as u32 - 48) as usize)
    } else if 'a' <= c && c <= 'f' {
        Some((c as u32 - 87) as usize)
    } else if 'A' <= c && c <= 'F' {
        Some((c as u32 - 55) as usize)
    } else {
        None
    }
}

/// The number that hexadecimal digits stand for; nothing if there is another
/// character among them.
pub open spec fn hex_number(digits: Seq<char>) -> Option<int>
    decreases digits.len(),
{
    if digits.len() == 0 {
        Some(0)
    } else {
        match (hex_number(digits.drop_last()), hex_value(digits.last())) {
            (Some(n), Some(d)) => Some(16 * n + d),
            _ => None,
        }
    }
}

/// The digits behind an optional plus sign.
pub open spec fn unsigned_digits(chars: Seq<char>) -> Seq<char> {
    if chars.len() > 0 && chars[0] == '+' {
        chars.drop_first()
    } else {
        chars
    }
}

/// The size that a text gives in hexadecimal digits, if a machine word holds it.
pub open spec fn parsed_size(chars: Seq<char>) -> Option<int> {
    let digits = unsigned_digits(chars);
    if digits.len() == 0 {
        None
    } else {
        match hex_number(digits) {
            Some(n) => if n <= usize::MAX {
                Some(n)
            } else {
                None
            },
            None => None,
        }
    }
}

proof fn lemma_hex_number_grows(digits: Seq<char>, i: int)
    requires
        0 <= i <= digits.len(),
    ensures
        hex_number(digits) matches Some(n) ==> (hex_number(digits.take(i)) matches Some(m) && 0 <= m
            <= n),
    decreases digits.len() - i, digits.len(),
{
    if i == digits.len() {
        assert(digits.take(i) =~= digits);
        lemma_hex_nonnegative(digits);
    } else {
        lemma_hex_number_grows(digits.drop_last(), i);
        assert(digits.drop_last().take(i) =~= digits.take(i));
    }
}

proof fn lemma_hex_nonnegative(digits: Seq<char>)
    ensures
        hex_number(digits) matches Some(n) ==> n >= 0,
    decreases digits.len(),
{
    if digits.len() > 0 {
        lemma_hex_nonnegative(digits.drop_last());
    }
}

fn parse_size(chars: &Vec<char>) -> (size: Option<usize>)
    ensures
        match size {
            Some(n) => parsed_size(chars@) == Some(n as int),
            None => parsed_size(chars@) is None,
        },
{
    let from: usize = if chars.len() > 0 && chars[0] == '+' {
        1
    } else {
        0
    };
    let digits = slice_chars(chars, from, chars.len());
    proof {
        if from == 1 {
            assert(digits@ =~= chars@.drop_first());
        } else {
            assert(digits@ =~= chars@);
        }
    }
    if digits.len() == 0 {
        return None;
    }
    let mut n: usize = 0;
    let mut i: usize = 0;
    while i < digits.len()
        invariant
            i <= digits@.len(),
            digits@ == unsigned_digits(chars@),
            digits@.len() > 0,
            hex_number(digits@.take(i as int)) == Some(n as int),
        decreases digits@.len() - i,
    {
        proof {
            assert(digits@.take(i + 1).drop_last() =~= digits@.take(i as int));
            assert(digits@.take(i + 1).last() == digits@[i as int]);
            lemma_hex_number_grows(digits@, i + 1);
        }
        match hex_digit(digits[i]) {
            Some(d) => {
                if n > (usize::MAX - d) / 16 {
                    return None;
                }
                n = 16 * n + d;
            },
            None => {
                return None;
            },
        }
        i = i + 1;
    }
    assert(digits@.take(i as int) =~= digits@);
    Some(n)
}

/// The text before a character.
pub open spec fn before_char(chars: Seq<char>, c: char) -> Seq<char>
    decreases chars.len(),
{
    if chars.len() == 0 || chars[0] == c {
        Seq::empty()
    } else {
        seq![chars[0]] + before_char(chars.drop_first(), c)
    }
}

proof fn lemma_before_char(chars: Seq<char>, c: char, i: int)
    requires
        0 <= i <= chars.len(),
        i < chars.len() ==> chars[i] == c,
        forall|j: int| 0 <= j < i ==> #[trigger] chars[j] != c,
    ensures
        before_char(chars, c) == chars.take(i),
    decreases chars.len(),
{
    if i == 0 {
        assert(chars.take(0) =~= Seq::empty());
    } else {
        assert(chars[0] != c);
        assert forall|j: int| 0 <= j < i - 1 implies #[trigger] chars.drop_first()[j] != c by {
            assert(chars[j + 1] != c);
        }
        lemma_before_char(chars.drop_first(), c, i - 1);
        assert(seq![chars[0]] + chars.drop_first().take(i - 1) =~= chars.take(i));
    }
}

fn cut_at(chars: &Vec<char>, c: char) -> (part: Vec<char>)
    ensures
        part@ == before_char(chars@, c),
{
    let mut i: usize = 0;
    while i < chars.len() && chars[i] != c
        invariant
            i <= chars@.len(),
            forall|j: int| 0 <= j < i ==> #[trigger] chars@[j] != c,
        decreases chars@.len() - i,
    {
        i = i + 1;
    }
    proof {
        lemma_before_char(chars@, c, i as int);
    }
    let part = slice_chars(chars, 0, i);
    assert(part@ =~= chars@.take(i as int));
    part
}

/// The text without white space at its ends.
pub open spec fn trimmed(chars: Seq<char>) -> Seq<char>
    decreases chars.len(),
{
    if chars.len() == 0 {
        chars
    } else if text::white_space(chars[0]) {
        trimmed(chars.drop_first())
    } else if text::white_space(chars.last()) {
        trimmed(chars.drop_last())
    } else {
        chars
    }
}

pub fn trim(chars: &Vec<char>) -> (part: Vec<char>)
    ensures
        part@ == trimmed(chars@),
{
    let mut start: usize = 0;
    let mut end: usize = chars.len();
    assert(chars@.subrange(0, end as int) =~= chars@);
    while start < end && is_white_space(chars[start])
        invariant
            start <= end == chars@.len(),
            trimmed(chars@.subrange(start as int, end as int)) == trimmed(chars@),
        decreases end - start,
    {
        assert(chars@.subrange(start as int, end as int).drop_first() =~= chars@.subrange(
            start + 1,
            end as int,
        ));
        start = start + 1;
    }
    while start < end && is_white_space(chars[end - 1])
        invariant
            start <= end <= chars@.len(),
            start < end ==> !text::white_space(chars@[start as int]),
            trimmed(chars@.subrange(start as int, end as int)) == trimmed(chars@),
        decreases end - start,
    {
        assert(chars@.subrange(start as int, end as int).drop_last() =~= chars@.subrange(
            start as int,
            end - 1,
        ));
        assert(chars@.subrange(start as int, end as int)[0] == chars@[start as int]);
        end = end - 1;
    }
    slice_chars(chars, start, end)
}

/// The size that the line before a chunk gives, where it is well-formed.
pub open spec fn chunk_size(line: Seq<u8>) -> Option<int> {
    if utf8::valid_utf8(line) {
        parsed_size(trimmed(before_char(utf8::decode_utf8(line), ';')))
    } else {
        None
    }
}

/// The body that comes in chunks, each behind a line with its size; the last one
/// is empty. Nothing if it is not well-formed.
pub open spec fn unchunked(body: Seq<u8>) -> Option<Seq<u8>>
    decreases body.len(),
{
    match position(body, crlf()) {
        Some(end) => if 0 <= end && end + 2 <= body.len() {
            let rest = body.skip(end + 2);
            match chunk_size(body.take(end)) {
                Some(size) => if size == 0 {
                    Some(Seq::empty())
                } else if 0 < size && size + 2 <= rest.len() {
                    match unchunked(rest.skip(size + 2)) {
                        Some(more) => Some(rest.take(size) + more),
                        None => None,
                    }
                } else {
                    None
                },
                None => None,
            }
        } else {
            None
        },
        None => None,
    }
}

fn read_chunk_size(line: Vec<u8>) -> (size: Option<usize>)
    ensures
        match size {
            Some(n) => chunk_size(line@) == Some(n as int),
            None => chunk_size(line@) is None,
        },
{
    match utf8_text(line) {
        Ok(text) => {
            let all = chars_of(text.as_str());
            let part = cut_at(&all, ';');
            parse_size(&trim(&part))
        },
        Err(_) => None,
    }
}

/// Puts the chunks of a body together.
pub fn decode_chunked(body: &Vec<u8>) -> (decoded: Option<Vec<u8>>)
    ensures
        match decoded {
            Some(d) => unchunked(body@) == Some(d@),
            None => unchunked(body@) is None,
        },
{
    let breaks = line_break();
    let mut out: Vec<u8> = Vec::new();
    let mut rest = bytes_between(body.as_slice(), 0, body.len());
    assert(rest@ =~= body@);
    assert(out@ =~= Seq::<u8>::empty());
    proof {
        if let Some(d) = unchunked(body@) {
            assert(Seq::<u8>::empty() + d =~= d);
        }
    }
    loop
        invariant
            breaks@ == crlf(),
            unchunked(body@) == match unchunked(rest@) {
                Some(more) => Some(out@ + more),
                None => None,
            },
        decreases rest@.len(),
    {
        let end: usize = match find(&rest, &breaks) {
            Some(end) => end,
            None => {
                return None;
            },
        };
        let line = bytes_between(rest.as_slice(), 0, end);
        assert(line@ =~= rest@.take(end as int));
        let size: usize = match read_chunk_size(line) {
            Some(size) => size,
            None => {
                return None;
            },
        };
        let ghost whole = rest@;
        let behind = bytes_between(rest.as_slice(), end + 2, rest.len());
        assert(behind@ =~= whole.skip(end + 2));
        if size == 0 {
            assert(out@ + Seq::<u8>::empty() =~= out@);
            return Some(out);
        }
        if behind.len() < 2 || behind.len() - 2 < size {
            return None;
        }
        let chunk = bytes_between(behind.as_slice(), 0, size);
        assert(chunk@ =~= behind@.take(size as int));
        let ghost before = out@;
        push_bytes(&mut out, &chunk);
        rest = bytes_between(behind.as_slice(), size + 2, behind.len());
        proof {
            assert(rest@ =~= behind@.skip(size + 2));
            if let Some(more) = unchunked(rest@) {
                assert(before + (chunk@ + more) =~= out@ + more);
            }
        }
    }
}

proof fn lemma_first_break(line: Seq<u8>, rest: Seq<u8>)
    requires
        first_at(line + crlf(), crlf(), line.len() as int),
    ensures
        position(line + crlf() + rest, crlf()) == Some(line.len() as int),
        (line + crlf() + rest).take(line.len() as int) == line,
        (line + crlf() + rest).skip(line.len() as int + 2) == rest,
{
    let body = line + crlf() + rest;
    let n = line.len() as int;
    assert(bytes_at(body, crlf(), n)) by {
        assert(body.subrange(n, n + 2) =~= crlf());
    }
    assert forall|i: int| #[trigger] bytes_at(body, crlf(), i) implies n <= i by {
        if i < n {
            assert((line + crlf()).subrange(i, i + 2) =~= body.subrange(i, i + 2));
            assert(bytes_at(line + crlf(), crlf(), i));
        }
    }
    assert(first_at(body, crlf(), n));
    let chosen = choose|at: int| first_at(body, crlf(), at);
    assert(bytes_at(body, crlf(), chosen));
    assert(body.take(n) =~= line);
    assert(body.skip(n + 2) =~= rest);
}

/// A chunk is put before what the rest of the body gives.
pub proof fn law_chunk(line: Seq<u8>, size: int, data: Seq<u8>, rest: Seq<u8>)
    requires
        first_at(line + crlf(), crlf(), line.len() as int),
        chunk_size(line) == Some(size),
        0 < size == data.len(),
    ensures
        unchunked(line + crlf() + (data + crlf() + rest)) == match unchunked(rest) {
            Some(more) => Some(data + more),
            None => None,
        },
{
    let behind = data + crlf() + rest;
    lemma_first_break(line, behind);
    assert(behind.skip(size + 2) =~= rest);
    assert(behind.take(size) =~= data);
    assert((line + crlf() + behind).len() == line.len() + 2 + behind.len());
}

/// A body ends with an empty chunk.
pub proof fn law_last_chunk(line: Seq<u8>, rest: Seq<u8>)
    requires
        first_at(line + crlf(), crlf(), line.len() as int),
        chunk_size(line) == Some(0int),
    ensures
        unchunked(line + crlf() + rest) == Some(Seq::<u8>::empty()),
{
    lemma_first_break(line, rest);
}

/// Whether a text stands at a position of another one.
pub open spec fn occurs_at(whole: Seq<char>, part: Seq<char>, at: int) -> bool {
    &&& 0 <= at
    &&& at + part.len() <= whole.len()
    &&& whole.subrange(at, at + part.len()) == part
}

pub open spec fn occurs_in(whole: Seq<char>, part: Seq<char>) -> bool {
    exists|at: int| occurs_at(whole, part, at)
}

/// Whether a text stands at a position, with the case of ASCII letters ignored.
pub open spec fn occurs_in_any_case(whole: Seq<char>, part: Seq<char>) -> bool {
    exists|at: int| 0 <= at && #[trigger] text::stands_at(whole, at, part)
}

fn chars_stand_at(whole: &Vec<char>, part: &Vec<char>, at: usize) -> (yes: bool)
    requires
        at <= whole@.len(),
    ensures
        yes == occurs_at(whole@, part@, at as int),
{
    if part.len() > whole.len() - at {
        return false;
    }
    let piece = slice_chars(whole, at, at + part.len());
    same_chars(&piece, part)
}

/// Whether a text occurs in another one.
pub fn contains(whole: &Vec<char>, part: &Vec<char>) -> (yes: bool)
    ensures
        yes == occurs_in(whole@, part@),
{
    let mut i: usize = 0;
    while i < whole.len()
        invariant
            i <= whole@.len(),
            forall|j: int| 0 <= j < i ==> !#[trigger] occurs_at(whole@, part@, j),
        decreases whole@.len() - i,
    {
        if chars_stand_at(whole, part, i) {
            return true;
        }
        i = i + 1;
    }
    chars_stand_at(whole, part, i)
}

fn contains_any_case(whole: &Vec<char>, part: &Vec<char>) -> (yes: bool)
    ensures
        yes == occurs_in_any_case(whole@, part@),
{
    let mut i: usize = 0;
    while i < whole.len()
        invariant
            i <= whole@.len(),
            forall|j: int| 0 <= j < i ==> !#[trigger] text::stands_at(whole@, j, part@),
        decreases whole@.len() - i,
    {
        if text::starts_with_ignore_case(whole, i, part) {
            return true;
        }
        i = i + 1;
    }
    text::starts_with_ignore_case(whole, i, part)
}

/// The lines of a text, between line breaks of two characters.
pub open spec fn lines(chars: Seq<char>, current: Seq<char>) -> Seq<Seq<char>>
    decreases chars.len(),
{
    if chars.len() >= 2 && chars[0] == '\r' && chars[1] == '\n' {
        seq![current] + lines(chars.skip(2), Seq::empty())
    } else if chars.len() > 0 {
        lines(chars.drop_first(), current.push(chars[0]))
    } else {
        seq![current]
    }
}

pub open spec fn char_views(parts: Seq<Vec<char>>) -> Seq<Seq<char>> {
    Seq::new(parts.len(), |i: int| parts[i]@)
}

fn split_lines(chars: &Vec<char>) -> (parts: Vec<Vec<char>>)
    ensures
        char_views(parts@) == lines(chars@, Seq::empty()),
        parts@.len() >= 1,
{
    let mut parts: Vec<Vec<char>> = Vec::new();
    let mut current: Vec<char> = Vec::new();
    let mut i: usize = 0;
    assert(chars@.skip(0) =~= chars@);
    assert(char_views(parts@) + lines(chars@.skip(0), current@) =~= lines(chars@, Seq::empty()));
    while i < chars.len()
        invariant
            i <= chars@.len(),
            char_views(parts@) + lines(chars@.skip(i as int), current@) == lines(
                chars@,
                Seq::empty(),
            ),
        decreases chars@.len() - i,
    {
        let ghost before = char_views(parts@);
        let ghost part = current@;
        let ghost rest = chars@.skip(i as int);
        if chars.len() - i >= 2 && chars[i] == '\r' && chars[i + 1] == '\n' {
            parts.push(current);
            current = Vec::new();
            i = i + 2;
            proof {
                assert(rest.skip(2) =~= chars@.skip(i as int));
                assert(current@ =~= Seq::empty());
                let tail = lines(chars@.skip(i as int), Seq::empty());
                assert(char_views(parts@) =~= before.push(part));
                assert(before + (seq![part] + tail) =~= char_views(parts@) + tail);
            }
        } else {
            current.push(chars[i]);
            i = i + 1;
            assert(rest.drop_first() =~= chars@.skip(i as int));
        }
    }
    let ghost before = char_views(parts@);
    let ghost part = current@;
    parts.push(current);
    assert(char_views(parts@) =~= before + seq![part]);
    parts
}

/// The words of a text, between white space.
pub open spec fn words(chars: Seq<char>) -> Seq<Seq<char>>
    decreases chars.len(),
{
    if chars.len() == 0 {
        Seq::empty()
    } else {
        let before = words(chars.drop_last());
        if text::white_space(chars.last()) {
            before
        } else if chars.len() == 1 || text::white_space(chars[chars.len() - 2]) {
            before.push(seq![chars.last()])
        } else {
            before.drop_last().push(before.last().push(chars.last()))
        }
    }
}

fn split_words(chars: &Vec<char>) -> (parts: Vec<Vec<char>>)
    ensures
        char_views(parts@) == words(chars@),
{
    let mut parts: Vec<Vec<char>> = Vec::new();
    let mut i: usize = 0;
    assert(char_views(parts@) =~= words(chars@.take(0)));
    while i < chars.len()
        invariant
            i <= chars@.len(),
            char_views(parts@) == words(chars@.take(i as int)),
            i > 0 && !text::white_space(chars@[i - 1]) ==> parts@.len() > 0,
        decreases chars@.len() - i,
    {
        let ghost before = char_views(parts@);
        assert(chars@.take(i + 1).drop_last() =~= chars@.take(i as int));
        if !is_white_space(chars[i]) {
            if i == 0 || is_white_space(chars[i - 1]) {
                let mut word: Vec<char> = Vec::new();
                word.push(chars[i]);
                let ghost added = word@;
                parts.push(word);
                assert(added =~= seq![chars@[i as int]]);
                assert(char_views(parts@) =~= before.push(added));
            } else {
                let last: usize = parts.len() - 1;
                let mut word = text::copy_chars(&parts[last]);
                word.push(chars[i]);
                let ghost longer = word@;
                assert(before.last() == parts@[last as int]@);
                parts.set(last, word);
                assert(char_views(parts@) =~= before.drop_last().push(longer));
            }
        }
        i = i + 1;
    }
    assert(chars@.take(i as int) =~= chars@);
    parts
}

/// The status that the first line of a response gives.
pub open spec fn status_of(line: Seq<char>) -> Option<int> {
    let parts = words(line);
    if parts.len() < 2 {
        None
    } else {
        let digits = unsigned_digits(parts[1]);
        if digits.len() == 0 || !text::all_digits(digits) || text::digits_value(digits)
            > u32::MAX {
            None
        } else {
            Some(text::digits_value(digits))
        }
    }
}

fn parse_status(line: &Vec<char>) -> (status: Option<u32>)
    ensures
        match status {
            Some(n) => status_of(line@) == Some(n as int),
            None => status_of(line@) is None,
        },
{
    let parts = split_words(line);
    if parts.len() < 2 {
        return None;
    }
    let word = &parts[1];
    assert(words(line@)[1] == word@);
    let from: usize = if word.len() > 0 && word[0] == '+' {
        1
    } else {
        0
    };
    let digits = slice_chars(word, from, word.len());
    proof {
        if from == 1 {
            assert(digits@ =~= word@.drop_first());
        } else {
            assert(digits@ =~= word@);
        }
    }
    if digits.len() == 0 || !crate::string_values::are_digits(&digits) {
        return None;
    }
    proof {
        text::lemma_digits_value_monotonic(digits@, 0);
    }
    match text::parse_digits(&digits) {
        Some(v) => if v <= u32::MAX as i64 {
            Some(v as u32)
        } else {
            None
        },
        None => None,
    }
}

/// A header line that announces chunks.
pub open spec fn announces_chunks(line: Seq<char>) -> bool {
    text::stands_at(line, 0, "transfer-encoding:"@) && occurs_in_any_case(line, "chunked"@)
}

/// The body of a response: nothing unless its head is well-formed and its status
/// is 200.
pub open spec fn response_body(response: Seq<u8>) -> Option<Seq<u8>> {
    match position(response, crlf() + crlf()) {
        Some(end) => if utf8::valid_utf8(response.take(end)) {
            let head = lines(utf8::decode_utf8(response.take(end)), Seq::empty());
            if status_of(head[0]) != Some(200int) {
                None
            } else if exists|i: int| 1 <= i < head.len() && announces_chunks(#[trigger] head[i]) {
                unchunked(response.skip(end + 4))
            } else {
                Some(response.skip(end + 4))
            }
        } else {
            None
        },
        None => None,
    }
}

fn any_chunked(head: &Vec<Vec<char>>) -> (yes: bool)
    ensures
        yes == exists|i: int| 1 <= i < head@.len() && announces_chunks((#[trigger] head@[i])@),
{
    let name = chars_of("transfer-encoding:");
    let value = chars_of("chunked");
    let mut i: usize = 1;
    while i < head.len()
        invariant
            1 <= i,
            i <= head@.len() || i == 1,
            name@ == "transfer-encoding:"@,
            value@ == "chunked"@,
            forall|j: int| 1 <= j < i ==> !announces_chunks((#[trigger] head@[j])@),
        decreases head@.len() - i,
    {
        if text::starts_with_ignore_case(&head[i], 0, &name) && contains_any_case(
            &head[i],
            &value,
        ) {
            return true;
        }
        i = i + 1;
    }
    false
}

/// The body of a response.
pub fn parse_response(response: &Vec<u8>) -> (body: Option<Vec<u8>>)
    ensures
        match body {
            Some(b) => response_body(response@) == Some(b@),
            None => response_body(response@) is None,
        },
{
    let mut blank = line_break();
    let more = line_break();
    push_bytes(&mut blank, &more);
    let end: usize = match find(response, &blank) {
        Some(end) => end,
        None => {
            return None;
        },
    };
    let head_bytes = bytes_between(response.as_slice(), 0, end);
    assert(head_bytes@ =~= response@.take(end as int));
    let head_text = match utf8_text(head_bytes) {
        Ok(text) => text,
        Err(_) => {
            return None;
        },
    };
    let head = split_lines(&chars_of(head_text.as_str()));
    let ghost views = lines(utf8::decode_utf8(response@.take(end as int)), Seq::empty());
    assert(views[0] == head@[0]@);
    match parse_status(&head[0]) {
        Some(status) => {
            if status != 200 {
                return None;
            }
        },
        None => {
            return None;
        },
    }
    let content = bytes_between(response.as_slice(), end + 4, response.len());
    assert(content@ =~= response@.skip(end + 4));
    let chunked: bool = any_chunked(&head);
    proof {
        if chunked {
            let i = choose|i: int|
                1 <= i < head@.len() && announces_chunks((#[trigger] head@[i])@);
            assert(announces_chunks(views[i]));
        } else {
            assert forall|i: int| 1 <= i < views.len() implies !announces_chunks(
                #[trigger] views[i],
            ) by {
                assert(views[i] == head@[i]@);
            }
        }
    }
    if chunked {
        decode_chunked(&content)
    } else {
        Some(content)
    }
}

/// The position of some bytes is the first at which they stand, and there is none only
/// where they stand nowhere.
pub proof fn law_position(bytes: Seq<u8>, part: Seq<u8>, i: int)
    ensures
        position(bytes, part) matches Some(at) ==> 0 <= at && at + part.len() <= bytes.len()
            && bytes.subrange(at, at + part.len()) == part,
        0 <= i && i + part.len() <= bytes.len() && bytes.subrange(i, i + part.len()) == part
            ==> position(bytes, part) is Some && position(bytes, part)->0 <= i,
{
    if position(bytes, part) is Some {
        let at = choose|at: int| first_at(bytes, part, at);
        assert(first_at(bytes, part, at));
    }
    if bytes_at(bytes, part, i) {
        lemma_first_exists(bytes, part, i);
    }
}

proof fn lemma_first_exists(bytes: Seq<u8>, part: Seq<u8>, i: int)
    requires
        bytes_at(bytes, part, i),
    ensures
        exists|at: int| first_at(bytes, part, at),
    decreases i,
{
    if exists|k: int| k < i && bytes_at(bytes, part, k) {
        let k = choose|k: int| k < i && bytes_at(bytes, part, k);
        lemma_first_exists(bytes, part, k);
    } else {
        assert(first_at(bytes, part, i));
    }
}

/// Hexadecimal digits have the values of their places, in either case, and each further
/// digit makes the number sixteen times as large and adds its value.
pub proof fn law_hex_number(digits: Seq<char>, c: char)
    ensures
        hex_number(Seq::empty()) == Some(0int),
        ('0' <= c <= '9') ==> hex_value(c) == Some(c as int - '0' as int),
        ('a' <= c <= 'f') ==> hex_value(c) == Some(10 + (c as int - 'a' as int)),
        ('A' <= c <= 'F') ==> hex_value(c) == Some(10 + (c as int - 'A' as int)),
        hex_value(c) matches Some(d) ==> 0 <= d < 16,
        hex_number(digits) is None || hex_value(c) is None ==> hex_number(digits.push(c)) is None,
        hex_number(digits) is Some && hex_value(c) is Some ==> hex_number(digits.push(c)) == Some(
            hex_number(digits)->0 * 16 + hex_value(c)->0,
        ),
{
    assert(digits.push(c).drop_last() =~= digits);
}

/// Of the size in front of an extension, spaces around the digits and a plus sign before
/// them do not count.
pub proof fn law_chunk_size(
    line: Seq<u8>,
    before: Seq<char>,
    digits: Seq<char>,
    after: Seq<char>,
    extension: Seq<char>,
)
    requires
        utf8::valid_utf8(line),
        utf8::decode_utf8(line) == before + digits + after + extension,
        forall|i: int| 0 <= i < before.len() ==> text::white_space(#[trigger] before[i]),
        forall|i: int| 0 <= i < after.len() ==> text::white_space(#[trigger] after[i]),
        digits.len() > 0,
        forall|i: int| 0 <= i < digits.len() ==> hex_value(#[trigger] digits[i]) is Some,
        extension.len() > 0 ==> extension[0] == ';',
        hex_number(digits) matches Some(n) ==> n <= usize::MAX,
    ensures
        chunk_size(line) == hex_number(digits),
        chunk_size(line) is Some,
{
    let text = before + digits + after;
    assert forall|i: int| 0 <= i < text.len() implies #[trigger] text[i] != ';' by {
        if i < before.len() {
            assert(text::white_space(before[i]));
        } else if i < before.len() + digits.len() {
            assert(hex_value(digits[i - before.len()]) is Some);
        } else {
            assert(text::white_space(after[i - before.len() - digits.len()]));
        }
    }
    lemma_text_before(text, extension, ';');
    assert(hex_value(digits[0]) is Some && hex_value(digits.last()) is Some);
    lemma_trimmed(before, digits, after);
    lemma_hex_number_some(digits);
}

proof fn lemma_hex_number_some(digits: Seq<char>)
    requires
        forall|i: int| 0 <= i < digits.len() ==> hex_value(#[trigger] digits[i]) is Some,
    ensures
        hex_number(digits) is Some,
    decreases digits.len(),
{
    if digits.len() > 0 {
        lemma_hex_number_some(digits.drop_last());
        assert(hex_value(digits[digits.len() - 1]) is Some);
    }
}

proof fn lemma_text_before(text: Seq<char>, rest: Seq<char>, c: char)
    requires
        forall|i: int| 0 <= i < text.len() ==> #[trigger] text[i] != c,
        rest.len() > 0 ==> rest[0] == c,
    ensures
        before_char(text + rest, c) == text,
    decreases text.len(),
{
    if text.len() > 0 {
        assert((text + rest)[0] == text[0]);
        assert((text + rest).drop_first() =~= text.drop_first() + rest);
        lemma_text_before(text.drop_first(), rest, c);
        assert(seq![text[0]] + text.drop_first() =~= text);
    } else {
        assert(text + rest =~= rest);
        assert(text =~= Seq::empty());
    }
}

proof fn lemma_trimmed(before: Seq<char>, core: Seq<char>, after: Seq<char>)
    requires
        forall|i: int| 0 <= i < before.len() ==> text::white_space(#[trigger] before[i]),
        forall|i: int| 0 <= i < after.len() ==> text::white_space(#[trigger] after[i]),
        core.len() > 0,
        !text::white_space(core[0]),
        !text::white_space(core.last()),
    ensures
        trimmed(before + core + after) == core,
    decreases before.len() + after.len(),
{
    let whole = before + core + after;
    if before.len() > 0 {
        assert(whole[0] == before[0]);
        assert(whole.drop_first() =~= before.drop_first() + core + after);
        lemma_trimmed(before.drop_first(), core, after);
    } else if after.len() > 0 {
        assert(whole[0] == core[0]);
        assert(whole.last() == after.last());
        assert(text::white_space(after[after.len() - 1]));
        assert(whole.drop_last() =~= before + core + after.drop_last());
        lemma_trimmed(before, core, after.drop_last());
    } else {
        assert(whole =~= core);
    }
}

/// A body whose next line holds no size, or is not ended, or whose data is cut short, is
/// refused.
pub proof fn law_bad_chunk(line: Seq<u8>, rest: Seq<u8>)
    requires
        first_at(line + crlf(), crlf(), line.len() as int),
    ensures
        chunk_size(line) is None ==> unchunked(line + crlf() + rest) is None,
        chunk_size(line) matches Some(size) && 0 < size && rest.len() < size + 2 ==> unchunked(
            line + crlf() + rest,
        ) is None,
{
    let body = line + crlf() + rest;
    let head = line + crlf();
    assert forall|i: int| #[trigger] bytes_at(body, crlf(), i) implies line.len() <= i by {
        if i < line.len() {
            assert(bytes_at(head, crlf(), i)) by {
                assert(head.subrange(i, i + 2) =~= body.subrange(i, i + 2));
            }
        }
    }
    assert(body.subrange(line.len() as int, line.len() as int + 2) =~= crlf());
    assert(first_at(body, crlf(), line.len() as int));
    assert(forall|at: int| first_at(body, crlf(), at) ==> at == line.len());
    assert(body.take(line.len() as int) =~= line);
    assert(body.skip(line.len() as int + 2) =~= rest);
}

/// Whether a line end begins at a position.
pub open spec fn ends_at(chars: Seq<char>, i: int) -> bool {
    0 <= i && i + 1 < chars.len() && chars[i] == '\r' && chars[i + 1] == '\n'
}

/// What ends a line.
pub open spec fn line_end() -> Seq<char> {
    seq!['\r', '\n']
}

/// Text up to the first line end is the first line, and the lines of what follows it are
/// the others.
pub proof fn law_lines(line: Seq<char>, rest: Seq<char>, current: Seq<char>)
    requires
        forall|i: int| i < line.len() ==> !#[trigger] ends_at(line + line_end() + rest, i),
    ensures
        lines(line + line_end() + rest, current) == seq![current + line] + lines(
            rest,
            Seq::empty(),
        ),
        lines(line, current) == seq![current + line],
    decreases line.len(),
{
    let end = line_end();
    let whole = line + end + rest;
    if line.len() == 0 {
        assert(whole[0] == '\r' && whole[1] == '\n');
        assert(whole.skip(2) =~= rest);
        assert(current + line =~= current);
    } else {
        assert(!ends_at(whole, 0));
        let next = line.drop_first();
        assert(whole.drop_first() =~= next + end + rest);
        assert forall|i: int| i < next.len() implies !#[trigger] ends_at(next + end + rest, i) by {
            assert(!ends_at(whole, i + 1));
            if 0 <= i {
                assert(whole[i + 1] == (next + end + rest)[i]);
                assert(whole[i + 2] == (next + end + rest)[i + 1]);
            }
        }
        law_lines(next, rest, current.push(line[0]));
        assert(whole[0] == line[0]);
        assert(line.len() >= 2 ==> whole[1] == line[1]);
        assert(current.push(line[0]) + next =~= current + line);
    }
}

/// White space ends a word, and what stands between white space is one.
pub proof fn law_words(before: Seq<char>, space: char, word: Seq<char>)
    requires
        text::white_space(space),
        forall|i: int| 0 <= i < word.len() ==> !text::white_space(#[trigger] word[i]),
    ensures
        words(before.push(space)) == words(before),
        word.len() > 0 ==> words(before.push(space) + word) == words(before).push(word),
        word.len() > 0 ==> words(word) == seq![word],
        words(Seq::empty()) == Seq::<Seq<char>>::empty(),
    decreases word.len(),
{
    assert(before.push(space).drop_last() =~= before);
    if word.len() > 0 {
        let rest = word.drop_last();
        law_words(before, space, rest);
        let whole = before.push(space) + word;
        let last = word.last();
        assert(!text::white_space(word[word.len() - 1]));
        assert(whole.last() == last);
        assert(whole.drop_last() =~= before.push(space) + rest);
        if rest.len() == 0 {
            assert(before.push(space) + rest =~= before.push(space));
            assert(whole[whole.len() - 2] == space);
            assert(word =~= seq![last]);
            assert(rest =~= Seq::<char>::empty());
            assert(words(word) =~= seq![word]);
        } else {
            assert(whole[whole.len() - 2] == rest.last());
            assert(!text::white_space(word[word.len() - 2]));
            assert(words(before).push(rest).drop_last() =~= words(before));
            assert(rest.push(last) =~= word);
            assert(seq![rest].drop_last() =~= Seq::<Seq<char>>::empty());
            assert(words(word) =~= seq![word]);
        }
    }
}

/// The status of a response is the number that is the second word of its first line.
pub proof fn law_status(protocol: Seq<char>, space: char, status: Seq<char>, n: int)
    requires
        protocol.len() > 0,
        forall|i: int| 0 <= i < protocol.len() ==> !text::white_space(#[trigger] protocol[i]),
        text::white_space(space),
        status.len() > 0,
        text::all_digits(status),
        text::digits_value(status) == n,
    ensures
        status_of(protocol) is None,
        n <= u32::MAX ==> status_of(protocol.push(space) + status) == Some(n),
        n > u32::MAX ==> status_of(protocol.push(space) + status) is None,
{
    assert forall|i: int| 0 <= i < status.len() implies !text::white_space(
        #[trigger] status[i],
    ) by {
        assert(text::ascii_digit(status[i]));
    }
    law_words(protocol, space, status);
    law_words(Seq::empty(), space, protocol);
    assert(words(protocol).push(status)[1] == status);
    assert(text::ascii_digit(status[0]));
}

/// A header line announces chunks where it begins with the name of the header, in any
/// case, and names them anywhere in it.
pub proof fn law_announces_chunks(line: Seq<char>, i: int)
    ensures
        line.len() < 18 ==> !announces_chunks(line),
        line.len() >= 18 && line[17] != ':' ==> !announces_chunks(line),
        line.len() >= 18 && announces_chunks(line) ==> text::ascii_lower_code(line[0]) == 't' as int
            && text::ascii_lower_code(line[9]) == 'e' as int,
        text::stands_at(line, 0, "transfer-encoding:"@) && 0 <= i && text::stands_at(
            line,
            i,
            "chunked"@,
        ) ==> announces_chunks(line),
{
    reveal_strlit("transfer-encoding:");
    reveal_strlit("chunked");
    if line.len() >= 18 && text::stands_at(line, 0, "transfer-encoding:"@) {
        let name = "transfer-encoding:"@;
        assert(text::eq_ascii_case(line[0int + 17], name[17]));
        assert(text::eq_ascii_case(line[0int + 0], name[0]));
        assert(text::eq_ascii_case(line[0int + 9], name[9]));
    }
}

/// The body of a response is what follows the first empty line, where the status is 200:
/// as it stands, or put together from its chunks where a header announces them.
pub proof fn law_response(head: Seq<u8>, body: Seq<u8>, i: int)
    requires
        first_at(head + seq![13u8, 10, 13, 10] + body, seq![13u8, 10, 13, 10], head.len() as int),
        utf8::valid_utf8(head),
    ensures
        ({
            let response = head + seq![13u8, 10, 13, 10] + body;
            let head_lines = lines(utf8::decode_utf8(head), Seq::empty());
            &&& status_of(head_lines[0]) != Some(200int) ==> response_body(response) is None
            &&& status_of(head_lines[0]) == Some(200int) && 1 <= i < head_lines.len()
                && announces_chunks(head_lines[i]) ==> response_body(response) == unchunked(body)
            &&& status_of(head_lines[0]) == Some(200int) && (forall|k: int|
                1 <= k < head_lines.len() ==> !announces_chunks(#[trigger] head_lines[k]))
                ==> response_body(response) == Some(body)
        }),
{
    let end = seq![13u8, 10, 13, 10];
    let response = head + end + body;
    assert(crlf() + crlf() =~= end);
    assert(forall|at: int| first_at(response, end, at) ==> at == head.len());
    assert(response.take(head.len() as int) =~= head);
    assert(response.skip(head.len() as int + 4) =~= body);
}

} // verus!
