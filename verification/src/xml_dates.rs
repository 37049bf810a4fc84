//! Dates in XML property lists that cannot be read: those on the last day that there
//! is, whose offset carries them into the next one.
//!
//! A document is cut into pieces (texts, references, tags and what is skipped) as a
//! reader does that wants no more of it than where each piece ends.
use crate::text::{chars_of, is_white_space};
use vstd::prelude::*;

verus! {

/// The kinds of pieces.
#[derive(Clone, Copy, Debug, PartialEq, Eq, Structural)]
pub enum Piece {
    Text,
    /// A reference to a character or an entity.
    Reference,
    /// A comment, a section of character data, an instruction or a document type.
    Skipped,
    Start,
    End,
    /// What is not closed, or no markup.
    Broken,
}

/// Where the piece is in a document type.
#[derive(Clone, Copy, Debug, PartialEq, Eq, Structural)]
pub enum TypePart {
    /// Before the internal subset, inside of the given quotes if not zero.
    Before(u8),
    Inside,
    After,
    Comment,
    Instruction,
    /// A declaration without quotes.
    Plain,
    /// A declaration, inside of the given quotes if not zero.
    Quoted(u8),
}

/// What the text of an element is read as.
#[derive(Clone, Copy, Debug, PartialEq, Eq, Structural)]
pub enum Mode {
    /// There is none: the place is between elements.
    Outside,
    Content,
    Date,
}

#[derive(Clone, Copy, Debug, PartialEq, Eq, Structural)]
pub enum Tag {
    /// An element that holds others, or nothing.
    Holder,
    Content,
    /// One whose content cannot be empty.
    Number,
    Date,
    Unknown,
}

/// What a reference stands for.
#[derive(Clone, Copy, Debug, PartialEq, Eq, Structural)]
pub enum Referent {
    Code(u32),
    Nothing,
    Invalid,
}

/// The bytes from `i` on start with some ASCII characters.
pub open spec fn word_at(bytes: Seq<u8>, i: int, word: Seq<char>) -> bool {
    &&& i + word.len() <= bytes.len()
    &&& forall|k: int| 0 <= k < word.len() ==> bytes[i + k] as char == #[trigger] word[k]
}

fn has_word(bytes: &[u8], i: usize, word: &str) -> (yes: bool)
    requires
        i <= bytes@.len(),
    ensures
        yes == word_at(bytes@, i as int, word@),
{
    let chars = chars_of(word);
    let len: usize = bytes.len();
    if chars.len() > len - i {
        return false;
    }
    let mut k: usize = 0;
    while k < chars.len()
        invariant
            k <= chars@.len(),
            bytes@.len() == len,
            chars@ == word@,
            i + chars@.len() <= bytes@.len(),
            forall|j: int| 0 <= j < k ==> bytes@[i + j] as char == #[trigger] chars@[j],
        decreases chars@.len() - k,
    {
        if bytes[i + k] as char != chars[k] {
            return false;
        }
        k = k + 1;
    }
    true
}

/// Where a text ends.
pub open spec fn text_end(bytes: Seq<u8>, i: int) -> int
    decreases bytes.len() - i,
{
    if i >= bytes.len() || bytes[i] == 60 || bytes[i] == 38 {
        i
    } else {
        text_end(bytes, i + 1)
    }
}

fn find_text_end(bytes: &[u8], from: usize) -> (end: usize)
    requires
        from <= bytes@.len(),
    ensures
        end == text_end(bytes@, from as int),
        from <= end <= bytes@.len(),
{
    let mut i: usize = from;
    while i < bytes.len() && bytes[i] != 60 && bytes[i] != 38
        invariant
            from <= i <= bytes@.len(),
            text_end(bytes@, i as int) == text_end(bytes@, from as int),
        decreases bytes@.len() - i,
    {
        i = i + 1;
    }
    i
}

/// Where a reference ends: at a semicolon, if nothing else starts before.
pub open spec fn reference_end(bytes: Seq<u8>, i: int) -> int
    decreases bytes.len() - i,
{
    if i >= bytes.len() || bytes[i] == 59 || bytes[i] == 38 || bytes[i] == 60 {
        i
    } else {
        reference_end(bytes, i + 1)
    }
}

fn find_reference_end(bytes: &[u8], from: usize) -> (end: usize)
    requires
        from <= bytes@.len(),
    ensures
        end == reference_end(bytes@, from as int),
        from <= end <= bytes@.len(),
{
    let mut i: usize = from;
    while i < bytes.len() && bytes[i] != 59 && bytes[i] != 38 && bytes[i] != 60
        invariant
            from <= i <= bytes@.len(),
            reference_end(bytes@, i as int) == reference_end(bytes@, from as int),
        decreases bytes@.len() - i,
    {
        i = i + 1;
    }
    i
}

/// Where there is a `>` behind `n` times the same byte; nowhere is the end.
pub open spec fn closing_end(bytes: Seq<u8>, i: int, mark: u8, n: int) -> int
    decreases bytes.len() - i,
{
    if i >= bytes.len() {
        bytes.len() as int
    } else if bytes[i] == 62 && bytes[i - 1] == mark && (n == 1 || bytes[i - 2] == mark) {
        i
    } else {
        closing_end(bytes, i + 1, mark, n)
    }
}

fn find_closing_end(bytes: &[u8], from: usize, mark: u8, n: usize) -> (end: usize)
    requires
        2 <= from,
    ensures
        end == closing_end(bytes@, from as int, mark, n as int),
        end <= bytes@.len(),
        end < bytes@.len() ==> from <= end,
{
    let mut i: usize = from;
    while i < bytes.len()
        invariant
            2 <= from <= i,
            closing_end(bytes@, i as int, mark, n as int) == closing_end(
                bytes@,
                from as int,
                mark,
                n as int,
            ),
        decreases bytes@.len() - i,
    {
        if bytes[i] == 62 && bytes[i - 1] == mark && (n == 1 || bytes[i - 2] == mark) {
            return i;
        }
        i = i + 1;
    }
    bytes.len()
}

/// The quotes behind a byte, where those before it are given; zero stands for none.
pub open spec fn quotes_after(quote: u8, byte: u8) -> u8 {
    if quote == 0 && (byte == 39 || byte == 34) {
        byte
    } else if quote != 0 && byte == quote {
        0
    } else {
        quote
    }
}

fn next_quotes(quote: u8, byte: u8) -> (next: u8)
    ensures
        next == quotes_after(quote, byte),
{
    if quote == 0 && (byte == 39 || byte == 34) {
        byte
    } else if quote != 0 && byte == quote {
        0
    } else {
        quote
    }
}

/// Where a tag ends: at a `>` that is not in quotes.
pub open spec fn tag_end(bytes: Seq<u8>, i: int, quote: u8) -> int
    decreases bytes.len() - i,
{
    if i >= bytes.len() || quote == 0 && bytes[i] == 62 {
        i
    } else {
        tag_end(bytes, i + 1, quotes_after(quote, bytes[i]))
    }
}

fn find_tag_end(bytes: &[u8], from: usize) -> (end: usize)
    requires
        from <= bytes@.len(),
    ensures
        end == tag_end(bytes@, from as int, 0),
        from <= end <= bytes@.len(),
{
    let mut i: usize = from;
    let mut quote: u8 = 0;
    while i < bytes.len() && !(quote == 0 && bytes[i] == 62)
        invariant
            from <= i <= bytes@.len(),
            tag_end(bytes@, i as int, quote) == tag_end(bytes@, from as int, 0),
        decreases bytes@.len() - i,
    {
        quote = next_quotes(quote, bytes[i]);
        i = i + 1;
    }
    i
}

/// The part that begins with a `<` in the internal subset of a document type, and how
/// far behind the `<` its end is looked for.
pub open spec fn part_at(bytes: Seq<u8>, i: int) -> (TypePart, int) {
    if word_at(bytes, i + 1, "?"@) {
        (TypePart::Instruction, 3)
    } else if word_at(bytes, i + 1, "!--"@) {
        (TypePart::Comment, 6)
    } else if word_at(bytes, i + 1, "!ENTITY"@) || word_at(bytes, i + 1, "!ATTLIST"@) || word_at(
        bytes,
        i + 1,
        "!NOTATION"@,
    ) {
        (TypePart::Quoted(0), 1)
    } else {
        (TypePart::Plain, 1)
    }
}

fn find_part(bytes: &[u8], i: usize) -> (part: (TypePart, usize))
    requires
        i < bytes@.len(),
    ensures
        part.0 == part_at(bytes@, i as int).0,
        part.1 == part_at(bytes@, i as int).1,
        1 <= part.1 <= 6,
{
    let len: usize = bytes.len();
    assert(i < len);
    if has_word(bytes, i + 1, "?") {
        (TypePart::Instruction, 3)
    } else if has_word(bytes, i + 1, "!--") {
        (TypePart::Comment, 6)
    } else if has_word(bytes, i + 1, "!ENTITY") || has_word(bytes, i + 1, "!ATTLIST") || has_word(
        bytes,
        i + 1,
        "!NOTATION",
    ) {
        (TypePart::Quoted(0), 1)
    } else {
        (TypePart::Plain, 1)
    }
}

/// One byte of a document type: the part behind it and how far to go, or nothing where
/// the document type ends.
pub open spec fn type_step(bytes: Seq<u8>, i: int, part: TypePart) -> Option<(TypePart, int)> {
    let byte = bytes[i];
    match part {
        TypePart::Before(quote) => if quote == 0 && byte == 62 {
            None
        } else if quote == 0 && byte == 91 {
            Some((TypePart::Inside, 1))
        } else {
            Some((TypePart::Before(quotes_after(quote, byte)), 1))
        },
        TypePart::Inside => Some(
            if byte == 93 {
                (TypePart::After, 1)
            } else if byte == 60 {
                part_at(bytes, i)
            } else {
                (TypePart::Inside, 1)
            },
        ),
        TypePart::After => if byte == 62 {
            None
        } else {
            Some((TypePart::After, 1))
        },
        TypePart::Comment => Some(
            if byte == 62 && bytes[i - 1] == 45 && bytes[i - 2] == 45 {
                (TypePart::Inside, 1)
            } else {
                (TypePart::Comment, 1)
            },
        ),
        TypePart::Instruction => Some(
            if byte == 62 && bytes[i - 1] == 63 {
                (TypePart::Inside, 1)
            } else {
                (TypePart::Instruction, 1)
            },
        ),
        TypePart::Plain => Some(
            if byte == 62 {
                (TypePart::Inside, 1)
            } else {
                (TypePart::Plain, 1)
            },
        ),
        TypePart::Quoted(quote) => Some(
            if quote == 0 && byte == 62 {
                (TypePart::Inside, 1)
            } else {
                (TypePart::Quoted(quotes_after(quote, byte)), 1)
            },
        ),
    }
}

fn take_type_step(bytes: &[u8], i: usize, part: TypePart) -> (step: Option<(TypePart, usize)>)
    requires
        2 <= i < bytes@.len(),
    ensures
        match step {
            Some((next, by)) => type_step(bytes@, i as int, part) == Some((next, by as int)) && 1
                <= by <= 6,
            None => type_step(bytes@, i as int, part) is None,
        },
{
    let byte: u8 = bytes[i];
    let next: TypePart = match part {
        TypePart::Before(quote) => {
            if quote == 0 && byte == 62 {
                return None;
            }
            if quote == 0 && byte == 91 {
                TypePart::Inside
            } else {
                TypePart::Before(next_quotes(quote, byte))
            }
        },
        TypePart::Inside => {
            if byte == 60 {
                return Some(find_part(bytes, i));
            }
            if byte == 93 {
                TypePart::After
            } else {
                TypePart::Inside
            }
        },
        TypePart::After => {
            if byte == 62 {
                return None;
            }
            TypePart::After
        },
        TypePart::Comment => if byte == 62 && bytes[i - 1] == 45 && bytes[i - 2] == 45 {
            TypePart::Inside
        } else {
            TypePart::Comment
        },
        TypePart::Instruction => if byte == 62 && bytes[i - 1] == 63 {
            TypePart::Inside
        } else {
            TypePart::Instruction
        },
        TypePart::Plain => if byte == 62 {
            TypePart::Inside
        } else {
            TypePart::Plain
        },
        TypePart::Quoted(quote) => if quote == 0 && byte == 62 {
            TypePart::Inside
        } else {
            TypePart::Quoted(next_quotes(quote, byte))
        },
    };
    Some((next, 1))
}

/// Where a document type ends; nowhere is the end of the document.
pub open spec fn type_end(bytes: Seq<u8>, i: int, part: TypePart) -> int
    decreases bytes.len() - i,
{
    if i >= bytes.len() {
        bytes.len() as int
    } else {
        match type_step(bytes, i, part) {
            None => i,
            Some((next, by)) => if by < 1 || by >= bytes.len() - i {
                bytes.len() as int
            } else {
                type_end(bytes, i + by, next)
            },
        }
    }
}

fn find_type_end(bytes: &[u8], from: usize) -> (end: usize)
    requires
        2 <= from <= bytes@.len(),
    ensures
        end == type_end(bytes@, from as int, TypePart::Before(0)),
        from <= end <= bytes@.len(),
{
    let len: usize = bytes.len();
    let mut i: usize = from;
    let mut part = TypePart::Before(0);
    while i < len
        invariant
            2 <= from <= i <= len,
            len == bytes@.len(),
            type_end(bytes@, i as int, part) == type_end(
                bytes@,
                from as int,
                TypePart::Before(0),
            ),
        decreases len - i,
    {
        match take_type_step(bytes, i, part) {
            None => {
                return i;
            },
            Some((next, by)) => {
                if by >= len - i {
                    return len;
                }
                part = next;
                i = i + by;
            },
        }
    }
    len
}

/// The place `n` bytes further on, or the end.
fn ahead(bytes: &[u8], pos: usize, n: usize) -> (place: usize)
    requires
        pos <= bytes@.len(),
    ensures
        place == if pos + n < bytes@.len() {
            pos + n
        } else {
            bytes@.len() as int
        },
{
    if n < bytes.len() - pos {
        pos + n
    } else {
        bytes.len()
    }
}

/// The bytes from `i` on start with some lower case ASCII characters, in either case.
pub open spec fn any_case_at(bytes: Seq<u8>, i: int, word: Seq<char>) -> bool {
    &&& i + word.len() <= bytes.len()
    &&& forall|k: int|
        0 <= k < word.len() ==> lower_byte(bytes[i + k]) as char == #[trigger] word[k]
}

pub open spec fn lower_byte(byte: u8) -> u8 {
    if 65 <= byte <= 90 {
        (byte + 32) as u8
    } else {
        byte
    }
}

fn has_any_case(bytes: &[u8], i: usize, word: &str) -> (yes: bool)
    requires
        i <= bytes@.len(),
    ensures
        yes == any_case_at(bytes@, i as int, word@),
{
    let chars = chars_of(word);
    let len: usize = bytes.len();
    if chars.len() > len - i {
        return false;
    }
    let mut k: usize = 0;
    while k < chars.len()
        invariant
            k <= chars@.len(),
            bytes@.len() == len,
            chars@ == word@,
            i + chars@.len() <= bytes@.len(),
            forall|j: int|
                0 <= j < k ==> lower_byte(bytes@[i + j]) as char == #[trigger] chars@[j],
        decreases chars@.len() - k,
    {
        let byte: u8 = bytes[i + k];
        let lower: u8 = if 65 <= byte && byte <= 90 {
            byte + 32
        } else {
            byte
        };
        if lower as char != chars[k] {
            assert(lower_byte(bytes@[i + k]) as char != chars@[k as int]);
            return false;
        }
        k = k + 1;
    }
    true
}

/// A byte that sets the parts of a tag apart.
pub open spec fn is_gap(byte: u8) -> bool {
    byte == 32 || byte == 9 || byte == 10 || byte == 13
}

/// Where the bytes from `from` to `end` stop without the gaps at their end.
pub open spec fn trimmed_end(bytes: Seq<u8>, from: int, end: int) -> int
    decreases end - from,
{
    if from < end && is_gap(bytes[end - 1]) {
        trimmed_end(bytes, from, end - 1)
    } else {
        end
    }
}

fn find_trimmed_end(bytes: &[u8], from: usize, end: usize) -> (stop: usize)
    requires
        from <= end <= bytes@.len(),
    ensures
        stop == trimmed_end(bytes@, from as int, end as int),
        from <= stop <= end,
{
    let mut stop: usize = end;
    while from < stop && (bytes[stop - 1] == 32 || bytes[stop - 1] == 9 || bytes[stop - 1] == 10
        || bytes[stop - 1] == 13)
        invariant
            from <= stop <= end <= bytes@.len(),
            trimmed_end(bytes@, from as int, stop as int) == trimmed_end(
                bytes@,
                from as int,
                end as int,
            ),
        decreases stop - from,
    {
        stop = stop - 1;
    }
    stop
}

/// The end of the document type that begins at `pos`, if it names a type.
pub open spec fn doctype_end(bytes: Seq<u8>, pos: int) -> int {
    let end = type_end(bytes, pos + 2, TypePart::Before(0));
    if end <= pos + 9 || trimmed_end(bytes, pos + 9, end) == pos + 9 {
        bytes.len() as int
    } else {
        end
    }
}

fn find_doctype_end(bytes: &[u8], pos: usize) -> (end: usize)
    requires
        pos + 2 <= bytes@.len(),
    ensures
        end == doctype_end(bytes@, pos as int),
        pos + 2 <= end <= bytes@.len(),
{
    let len: usize = bytes.len();
    let end: usize = find_type_end(bytes, pos + 2);
    if end < 9 || end - 9 <= pos || find_trimmed_end(bytes, pos + 9, end) == pos + 9 {
        len
    } else {
        end
    }
}

/// The piece that begins at `pos`, and where the next one does.
pub open spec fn piece_at(bytes: Seq<u8>, pos: int) -> (Piece, int) {
    let len = bytes.len() as int;
    if bytes[pos] == 38 {
        let end = reference_end(bytes, pos + 1);
        if end < len && bytes[end] == 59 {
            (Piece::Reference, end + 1)
        } else {
            (Piece::Broken, len)
        }
    } else if bytes[pos] != 60 {
        (Piece::Text, text_end(bytes, pos))
    } else {
        let (piece, end) = if word_at(bytes, pos + 1, "!--"@) {
            (Piece::Skipped, closing_end(bytes, pos + 6, 45, 2))
        } else if word_at(bytes, pos + 1, "![CDATA["@) {
            (Piece::Skipped, closing_end(bytes, pos + 4, 93, 2))
        } else if any_case_at(bytes, pos + 1, "!doctype"@) {
            (Piece::Skipped, doctype_end(bytes, pos))
        } else if word_at(bytes, pos + 1, "!"@) || word_at(bytes, pos + 1, "?>"@) {
            (Piece::Broken, len)
        } else if word_at(bytes, pos + 1, "?"@) {
            (Piece::Skipped, closing_end(bytes, pos + 3, 63, 1))
        } else if word_at(bytes, pos + 1, "/"@) {
            (Piece::End, tag_end(bytes, pos + 2, 0))
        } else {
            (Piece::Start, tag_end(bytes, pos + 1, 0))
        };
        if end < len {
            (piece, end + 1)
        } else {
            (Piece::Broken, len)
        }
    }
}

fn find_piece(bytes: &[u8], pos: usize) -> (piece: (Piece, usize))
    requires
        pos < bytes@.len(),
    ensures
        piece.0 == piece_at(bytes@, pos as int).0,
        piece.1 == piece_at(bytes@, pos as int).1,
        pos < piece.1 <= bytes@.len(),
        piece.0 == Piece::Reference || piece.0 == Piece::Start ==> pos + 2 <= piece.1,
        piece.0 == Piece::Start ==> bytes@[pos as int] == 60,
        piece.0 == Piece::End ==> pos + 3 <= piece.1,
{
    let len: usize = bytes.len();
    proof {
        reveal_strlit("/");
        reveal_strlit("!--");
        reveal_strlit("![CDATA[");
        reveal_strlit("!doctype");
        reveal_strlit("?");
    }
    if bytes[pos] == 38 {
        let end: usize = find_reference_end(bytes, pos + 1);
        return if end < len && bytes[end] == 59 {
            (Piece::Reference, end + 1)
        } else {
            (Piece::Broken, len)
        };
    }
    if bytes[pos] != 60 {
        return (Piece::Text, find_text_end(bytes, pos + 1));
    }
    let (piece, end): (Piece, usize) = if has_word(bytes, pos + 1, "!--") {
        (Piece::Skipped, find_closing_end(bytes, ahead(bytes, pos, 6), 45, 2))
    } else if has_word(bytes, pos + 1, "![CDATA[") {
        (Piece::Skipped, find_closing_end(bytes, ahead(bytes, pos, 4), 93, 2))
    } else if has_any_case(bytes, pos + 1, "!doctype") {
        (Piece::Skipped, find_doctype_end(bytes, pos))
    } else if has_word(bytes, pos + 1, "!") || has_word(bytes, pos + 1, "?>") {
        (Piece::Broken, len)
    } else if has_word(bytes, pos + 1, "?") {
        (Piece::Skipped, find_closing_end(bytes, ahead(bytes, pos, 3), 63, 1))
    } else if has_word(bytes, pos + 1, "/") {
        (Piece::End, find_tag_end(bytes, pos + 2))
    } else {
        (Piece::Start, find_tag_end(bytes, pos + 1))
    };
    if end < len {
        (piece, end + 1)
    } else {
        (Piece::Broken, len)
    }
}

/// The value of a digit in a base; nothing for other bytes.
pub open spec fn digit_of(byte: u8, base: int) -> Option<int> {
    let value: int = if 48 <= byte <= 57 {
        byte - 48
    } else if 97 <= byte <= 102 {
        byte - 87
    } else if 65 <= byte <= 70 {
        byte - 55
    } else {
        99
    };
    if value < base {
        Some(value)
    } else {
        None
    }
}

fn digit_value(byte: u8, base: u32) -> (value: Option<u32>)
    ensures
        match value {
            Some(v) => digit_of(byte, base as int) == Some(v as int) && v < base,
            None => digit_of(byte, base as int) is None,
        },
{
    let value: u32 = if 48 <= byte && byte <= 57 {
        byte as u32 - 48
    } else if 97 <= byte && byte <= 102 {
        byte as u32 - 87
    } else if 65 <= byte && byte <= 70 {
        byte as u32 - 55
    } else {
        99
    };
    if value < base {
        Some(value)
    } else {
        None
    }
}

/// Above all codes of characters.
pub const TOO_LARGE: u32 = 0x11_0000;

/// The number in the bytes from `i` to `end` behind those that gave `so_far`; what is
/// too large for a character stays so. Nothing where there is no digit.
pub open spec fn number_from(bytes: Seq<u8>, i: int, end: int, base: int, so_far: int) -> Option<
    int,
>
    decreases end - i,
{
    if i >= end {
        Some(so_far)
    } else {
        match digit_of(bytes[i], base) {
            Some(d) => number_from(
                bytes,
                i + 1,
                end,
                base,
                if so_far * base + d > TOO_LARGE {
                    TOO_LARGE as int
                } else {
                    so_far * base + d
                },
            ),
            None => None,
        }
    }
}

fn read_number(bytes: &[u8], from: usize, end: usize, base: u32) -> (number: Option<u32>)
    requires
        from <= end <= bytes@.len(),
        base == 10 || base == 16,
    ensures
        match number {
            Some(n) => number_from(bytes@, from as int, end as int, base as int, 0) == Some(
                n as int,
            ),
            None => number_from(bytes@, from as int, end as int, base as int, 0) is None,
        },
{
    let mut i: usize = from;
    let mut so_far: u32 = 0;
    while i < end
        invariant
            from <= i <= end <= bytes@.len(),
            base == 10 || base == 16,
            so_far <= TOO_LARGE,
            number_from(bytes@, i as int, end as int, base as int, so_far as int) == number_from(
                bytes@,
                from as int,
                end as int,
                base as int,
                0,
            ),
        decreases end - i,
    {
        let digit: u32 = match digit_value(bytes[i], base) {
            Some(d) => d,
            None => {
                return None;
            },
        };
        let next: u32 = if base == 10 {
            so_far * 10 + digit
        } else {
            so_far * 16 + digit
        };
        so_far = if next > TOO_LARGE {
            TOO_LARGE
        } else {
            next
        };
        i = i + 1;
    }
    Some(so_far)
}

/// A code that a character has.
pub open spec fn is_code(n: int) -> bool {
    0 < n < TOO_LARGE && !(0xd800 <= n <= 0xdfff)
}

/// The bytes from `from` to `end` are a word.
pub open spec fn is_word(bytes: Seq<u8>, from: int, end: int, word: Seq<char>) -> bool {
    end - from == word.len() && word_at(bytes, from, word)
}

fn same_word(bytes: &[u8], from: usize, end: usize, word: &str) -> (yes: bool)
    requires
        from <= end <= bytes@.len(),
    ensures
        yes == is_word(bytes@, from as int, end as int, word@),
{
    end - from == chars_of(word).len() && has_word(bytes, from, word)
}

/// What the reference stands for whose name is in the bytes from `from` to `end`: the
/// character of a number, or one of the five entities that are always known.
pub open spec fn referent_of(bytes: Seq<u8>, from: int, end: int) -> Referent {
    if from < end && bytes[from] == 35 {
        let hex = from + 1 < end && bytes[from + 1] == 120;
        let start = if hex {
            from + 2
        } else {
            from + 1
        };
        let number = number_from(
            bytes,
            start,
            end,
            if hex {
                16
            } else {
                10
            },
            0,
        );
        if start < end && number is Some && is_code(number->0) {
            Referent::Code(number->0 as u32)
        } else {
            Referent::Invalid
        }
    } else if is_word(bytes, from, end, "lt"@) {
        Referent::Code(60)
    } else if is_word(bytes, from, end, "gt"@) {
        Referent::Code(62)
    } else if is_word(bytes, from, end, "amp"@) {
        Referent::Code(38)
    } else if is_word(bytes, from, end, "apos"@) {
        Referent::Code(39)
    } else if is_word(bytes, from, end, "quot"@) {
        Referent::Code(34)
    } else {
        Referent::Nothing
    }
}

fn find_referent(bytes: &[u8], from: usize, end: usize) -> (referent: Referent)
    requires
        from <= end <= bytes@.len(),
    ensures
        referent == referent_of(bytes@, from as int, end as int),
{
    if from < end && bytes[from] == 35 {
        let hex: bool = from + 1 < end && bytes[from + 1] == 120;
        let start: usize = if hex {
            from + 2
        } else {
            from + 1
        };
        let number = read_number(
            bytes,
            start,
            end,
            if hex {
                16
            } else {
                10
            },
        );
        match number {
            Some(n) => if start < end && 0 < n && n < TOO_LARGE && !(0xd800 <= n && n <= 0xdfff) {
                Referent::Code(n)
            } else {
                Referent::Invalid
            },
            None => Referent::Invalid,
        }
    } else if same_word(bytes, from, end, "lt") {
        Referent::Code(60)
    } else if same_word(bytes, from, end, "gt") {
        Referent::Code(62)
    } else if same_word(bytes, from, end, "amp") {
        Referent::Code(38)
    } else if same_word(bytes, from, end, "apos") {
        Referent::Code(39)
    } else if same_word(bytes, from, end, "quot") {
        Referent::Code(34)
    } else {
        Referent::Nothing
    }
}

/// Where the name of a tag ends.
pub open spec fn name_end(bytes: Seq<u8>, i: int, end: int) -> int
    decreases end - i,
{
    if i >= end || is_gap(bytes[i]) {
        i
    } else {
        name_end(bytes, i + 1, end)
    }
}

fn find_name_end(bytes: &[u8], from: usize, end: usize) -> (stop: usize)
    requires
        from <= end <= bytes@.len(),
    ensures
        stop == name_end(bytes@, from as int, end as int),
        from <= stop <= end,
{
    let mut stop: usize = from;
    while stop < end && bytes[stop] != 32 && bytes[stop] != 9 && bytes[stop] != 10 && bytes[stop]
        != 13
        invariant
            from <= stop <= end <= bytes@.len(),
            name_end(bytes@, stop as int, end as int) == name_end(
                bytes@,
                from as int,
                end as int,
            ),
        decreases end - stop,
    {
        stop = stop + 1;
    }
    stop
}

/// Where a name begins behind its prefix: behind the first colon, if there is one.
pub open spec fn local_start(bytes: Seq<u8>, i: int, end: int, from: int) -> int
    decreases end - i,
{
    if i >= end {
        from
    } else if bytes[i] == 58 {
        i + 1
    } else {
        local_start(bytes, i + 1, end, from)
    }
}

/// The tag whose inside is in the bytes from `from` to `end`.
pub open spec fn tag_of(bytes: Seq<u8>, from: int, end: int) -> Tag {
    let stop = name_end(bytes, from, end);
    let start = local_start(bytes, from, stop, from);
    if is_word(bytes, start, stop, "date"@) {
        Tag::Date
    } else if is_word(bytes, start, stop, "key"@) || is_word(bytes, start, stop, "string"@)
        || is_word(bytes, start, stop, "data"@) {
        Tag::Content
    } else if is_word(bytes, start, stop, "integer"@) || is_word(bytes, start, stop, "real"@) {
        Tag::Number
    } else if is_word(bytes, start, stop, "plist"@) || is_word(bytes, start, stop, "array"@)
        || is_word(bytes, start, stop, "dict"@) || is_word(bytes, start, stop, "true"@)
        || is_word(bytes, start, stop, "false"@) {
        Tag::Holder
    } else {
        Tag::Unknown
    }
}

fn find_tag(bytes: &[u8], from: usize, end: usize) -> (tag: Tag)
    requires
        from <= end <= bytes@.len(),
    ensures
        tag == tag_of(bytes@, from as int, end as int),
{
    let stop: usize = find_name_end(bytes, from, end);
    let mut i: usize = from;
    while i < stop && bytes[i] != 58
        invariant
            from <= i <= stop <= bytes@.len(),
            local_start(bytes@, i as int, stop as int, from as int) == local_start(
                bytes@,
                from as int,
                stop as int,
                from as int,
            ),
        decreases stop - i,
    {
        i = i + 1;
    }
    let start: usize = if i < stop {
        i + 1
    } else {
        from
    };
    if same_word(bytes, start, stop, "date") {
        Tag::Date
    } else if same_word(bytes, start, stop, "key") || same_word(bytes, start, stop, "string")
        || same_word(bytes, start, stop, "data") {
        Tag::Content
    } else if same_word(bytes, start, stop, "integer") || same_word(bytes, start, stop, "real") {
        Tag::Number
    } else if same_word(bytes, start, stop, "plist") || same_word(bytes, start, stop, "array")
        || same_word(bytes, start, stop, "dict") || same_word(bytes, start, stop, "true")
        || same_word(bytes, start, stop, "false") {
        Tag::Holder
    } else {
        Tag::Unknown
    }
}

/// A code of white space.
pub open spec fn blank_code(code: u32) -> bool {
    code <= 0x3000 && crate::text::white_space(code as char)
}

fn is_blank_code(code: u32) -> (blank: bool)
    ensures
        blank == blank_code(code),
{
    if code > 0x3000 {
        return false;
    }
    match char::from_u32(code) {
        Some(c) => is_white_space(c),
        None => false,
    }
}

/// The length of the white space at `i` in UTF-8; zero where there is something else.
pub open spec fn blank_len(bytes: Seq<u8>, i: int, end: int) -> int {
    if i < end && bytes[i] < 128 && blank_code(bytes[i] as u32) {
        1
    } else if i + 1 < end && bytes[i] == 0xc2 && bytes[i + 1] >= 128 && blank_code(
        bytes[i + 1] as u32,
    ) {
        2
    } else if i + 2 < end && 0xe1 <= bytes[i] <= 0xe3 && 128 <= bytes[i + 1] < 192 && 128
        <= bytes[i + 2] < 192 && blank_code(
        (4096 * (bytes[i] - 0xe0) + 64 * (bytes[i + 1] - 128) + bytes[i + 2] - 128) as u32,
    ) {
        3
    } else {
        0
    }
}

fn find_blank(bytes: &[u8], i: usize, end: usize) -> (len: usize)
    requires
        i < end <= bytes@.len(),
    ensures
        len == blank_len(bytes@, i as int, end as int),
        len <= end - i,
{
    let b: u8 = bytes[i];
    let left: usize = end - i;
    if b < 128 && is_blank_code(b as u32) {
        1
    } else if left > 1 && b == 0xc2 && bytes[i + 1] >= 128 && is_blank_code(bytes[i + 1] as u32) {
        2
    } else if left > 2 && 0xe1 <= b && b <= 0xe3 && 128 <= bytes[i + 1] && bytes[i + 1] < 192
        && 128 <= bytes[i + 2] && bytes[i + 2] < 192 && is_blank_code(
        4096 * (b as u32 - 0xe0) + 64 * (bytes[i + 1] as u32 - 128) + (bytes[i + 2] as u32 - 128),
    ) {
        3
    } else {
        0
    }
}

/// The bytes are white space.
pub open spec fn is_blank(bytes: Seq<u8>, from: int, end: int) -> bool
    decreases end - from,
{
    from >= end || {
        let len = blank_len(bytes, from, end);
        0 < len <= end - from && is_blank(bytes, from + len, end)
    }
}

fn all_blank(bytes: &[u8], from: usize, end: usize) -> (blank: bool)
    requires
        from <= end <= bytes@.len(),
    ensures
        blank == is_blank(bytes@, from as int, end as int),
{
    let mut i: usize = from;
    while i < end
        invariant
            from <= i <= end <= bytes@.len(),
            is_blank(bytes@, i as int, end as int) == is_blank(bytes@, from as int, end as int),
        decreases end - i,
    {
        let len: usize = find_blank(bytes, i, end);
        if len == 0 {
            return false;
        }
        i = i + len;
    }
    true
}

/// The bytes of a text.
pub open spec fn codes_of(bytes: Seq<u8>, from: int, end: int) -> Seq<u32> {
    Seq::new((end - from) as nat, |i: int| bytes[from + i] as u32)
}

/// The text at a place has a form: `#` stands for a digit, and `?` for any ASCII
/// character.
pub open spec fn has_form(text: Seq<u32>, at: int, form: Seq<char>) -> bool {
    &&& 0 <= at
    &&& at + form.len() <= text.len()
    &&& forall|k: int|
        0 <= k < form.len() ==> fits_form(text[at + k], #[trigger] form[k])
}

pub open spec fn fits_form(code: u32, form: char) -> bool {
    if form == '#' {
        48 <= code <= 57
    } else if form == '?' {
        code < 128
    } else {
        code == form as u32
    }
}

fn is_of_form(text: &Vec<u32>, at: usize, form: &str) -> (yes: bool)
    ensures
        yes == has_form(text@, at as int, form@),
{
    let chars = chars_of(form);
    if at > text.len() || chars.len() > text.len() - at {
        return false;
    }
    let mut k: usize = 0;
    while k < chars.len()
        invariant
            k <= chars@.len(),
            chars@ == form@,
            at + chars@.len() <= text@.len(),
            text@.len() <= usize::MAX,
            forall|j: int| 0 <= j < k ==> fits_form(text@[at + j], #[trigger] chars@[j]),
        decreases chars@.len() - k,
    {
        let code: u32 = text[at + k];
        let c: char = chars[k];
        let fits: bool = if c == '#' {
            48 <= code && code <= 57
        } else if c == '?' {
            code < 128
        } else {
            code == c as u32
        };
        if !fits {
            assert(!fits_form(text@[at + k], chars@[k as int]));
            return false;
        }
        k = k + 1;
    }
    true
}

/// The number that two digits make.
pub open spec fn two_digits(text: Seq<u32>, at: int) -> int {
    10 * (text[at] - 48) + text[at + 1] - 48
}

/// A text that is a date on the last day of the year 9999, and by its offset in the
/// next one: `9999-12-31`, a character, the time with or without a fraction, and the
/// offset, each in its range.
pub open spec fn is_late(text: Seq<u32>) -> bool {
    let n = text.len() as int;
    &&& has_form(text, 0, "9999-12-31?##:##:##"@)
    &&& n >= 25
    &&& has_form(text, n - 6, "-##:##"@)
    &&& n == 25 || n >= 27 && text[19] == 46 && (forall|i: int|
        20 <= i < n - 6 ==> 48 <= #[trigger] text[i] <= 57)
    &&& two_digits(text, 11) <= 23
    &&& two_digits(text, 14) <= 59
    &&& two_digits(text, 17) <= 59
    &&& two_digits(text, n - 5) <= 23
    &&& two_digits(text, n - 2) <= 59
    &&& 60 * (two_digits(text, 11) + two_digits(text, n - 5)) + two_digits(text, 14) + two_digits(
        text,
        n - 2,
    ) >= 1440
}

fn digit_pair(text: &Vec<u32>, at: usize) -> (value: u32)
    requires
        at + 1 < text@.len(),
        48 <= text@[at as int] <= 57,
        48 <= text@[at + 1] <= 57,
    ensures
        value == two_digits(text@, at as int),
        value <= 99,
{
    let len: usize = text.len();
    assert(at + 1 < len);
    10 * (text[at] - 48) + (text[at + 1] - 48)
}

fn late(text: &Vec<u32>) -> (yes: bool)
    ensures
        yes == is_late(text@),
{
    proof {
        reveal_strlit("9999-12-31?##:##:##");
        reveal_strlit("-##:##");
    }
    let n: usize = text.len();
    if n < 25 || !is_of_form(text, 0, "9999-12-31?##:##:##") || !is_of_form(text, n - 6, "-##:##") {
        return false;
    }
    if n != 25 {
        if n < 27 || text[19] != 46 {
            return false;
        }
        let mut i: usize = 20;
        while i < n - 6
            invariant
                27 <= n == text@.len(),
                20 <= i <= n - 6,
                forall|j: int| 20 <= j < i ==> 48 <= #[trigger] text@[j] <= 57,
            decreases n - i,
        {
            if !(48 <= text[i] && text[i] <= 57) {
                return false;
            }
            i = i + 1;
        }
    }
    let ghost form = "9999-12-31?##:##:##"@;
    let ghost tail = "-##:##"@;
    assert(form[11] == '#' && form[12] == '#' && form[14] == '#' && form[15] == '#' && form[17]
        == '#' && form[18] == '#');
    assert(tail[1] == '#' && tail[2] == '#' && tail[4] == '#' && tail[5] == '#');
    let hour: u32 = digit_pair(text, 11);
    let minute: u32 = digit_pair(text, 14);
    let second: u32 = digit_pair(text, 17);
    let offset_hour: u32 = digit_pair(text, n - 5);
    let offset_minute: u32 = digit_pair(text, n - 2);
    hour <= 23 && minute <= 59 && second <= 59 && offset_hour <= 23 && offset_minute <= 59 && 60 * (
    hour + offset_hour) + minute + offset_minute >= 1440
}

/// The tag that ends at `next` closes the last of the elements whose names stand at the
/// given places.
pub open spec fn closes(bytes: Seq<u8>, pos: int, next: int, open: Seq<(usize, usize)>) -> bool {
    open.len() > 0 && {
        let (from, to) = open.last();
        bytes.subrange(pos + 2, trimmed_end(bytes, pos + 2, next - 1)) == bytes.subrange(
            from as int,
            to as int,
        )
    }
}

fn is_closing(bytes: &[u8], pos: usize, next: usize, open: &Vec<(usize, usize)>) -> (yes: bool)
    requires
        pos + 3 <= next <= bytes@.len(),
        forall|i: int|
            0 <= i < open@.len() ==> (#[trigger] open@[i]).0 <= open@[i].1 <= bytes@.len(),
    ensures
        yes == closes(bytes@, pos as int, next as int, open@),
{
    if open.len() == 0 {
        return false;
    }
    let (from, to): (usize, usize) = open[open.len() - 1];
    assert(open@[open@.len() - 1].0 <= open@[open@.len() - 1].1);
    let stop: usize = find_trimmed_end(bytes, pos + 2, next - 1);
    let ghost name = bytes@.subrange(pos + 2, stop as int);
    let ghost opened = bytes@.subrange(from as int, to as int);
    if stop - (pos + 2) != to - from {
        assert(name.len() != opened.len());
        return false;
    }
    let mut k: usize = 0;
    while k < to - from
        invariant
            k <= to - from,
            from <= to <= bytes@.len(),
            pos + 2 <= stop <= bytes@.len(),
            stop - (pos + 2) == to - from,
            stop == trimmed_end(bytes@, pos + 2, next - 1),
            open@.len() > 0,
            open@.last() == (from, to),
            name == bytes@.subrange(pos + 2, stop as int),
            opened == bytes@.subrange(from as int, to as int),
            forall|j: int| 0 <= j < k ==> name[j] == opened[j],
        decreases to - from - k,
    {
        if bytes[pos + 2 + k] != bytes[from + k] {
            assert(name[k as int] != opened[k as int]);
            return false;
        }
        k = k + 1;
    }
    assert(name =~= opened);
    true
}

/// The pieces from `pos` on come to a late date, where `text` has been read of a date
/// and the names of the elements that are not closed yet stand at the given places.
pub open spec fn late_from(
    bytes: Seq<u8>,
    pos: int,
    mode: Mode,
    text: Seq<u32>,
    open: Seq<(usize, usize)>,
) -> bool
    decreases bytes.len() - pos,
{
    if pos < 0 || pos >= bytes.len() {
        false
    } else {
        let (piece, next) = piece_at(bytes, pos);
        if next <= pos || next > bytes.len() {
            false
        } else {
            match piece {
                Piece::Broken => false,
                Piece::Skipped => late_from(bytes, next, mode, text, open),
                Piece::Text => match mode {
                    Mode::Outside => is_blank(bytes, pos, next) && late_from(
                        bytes,
                        next,
                        mode,
                        text,
                        open,
                    ),
                    Mode::Content => late_from(bytes, next, mode, text, open),
                    Mode::Date => late_from(
                        bytes,
                        next,
                        mode,
                        text + codes_of(bytes, pos, next),
                        open,
                    ),
                },
                Piece::Reference => match referent_of(bytes, pos + 1, next - 1) {
                    Referent::Code(c) => match mode {
                        Mode::Outside => blank_code(c) && late_from(bytes, next, mode, text, open),
                        Mode::Content => late_from(bytes, next, mode, text, open),
                        Mode::Date => late_from(bytes, next, mode, text.push(c), open),
                    },
                    Referent::Nothing => mode != Mode::Outside && late_from(
                        bytes,
                        next,
                        mode,
                        text,
                        open,
                    ),
                    Referent::Invalid => false,
                },
                Piece::Start => if bytes[next - 2] == 47 {
                    let tag = tag_of(bytes, pos + 1, next - 2);
                    mode == Mode::Outside && (tag == Tag::Holder || tag == Tag::Content)
                        && late_from(bytes, next, mode, text, open)
                } else {
                    let tag = tag_of(bytes, pos + 1, next - 1);
                    mode == Mode::Outside && tag != Tag::Unknown && late_from(
                        bytes,
                        next,
                        mode_of(tag),
                        Seq::empty(),
                        open.push(
                            ((pos + 1) as usize, name_end(bytes, pos + 1, next - 1) as usize),
                        ),
                    )
                },
                Piece::End => closes(bytes, pos, next, open) && (mode == Mode::Date && is_late(text)
                    || late_from(bytes, next, Mode::Outside, Seq::empty(), open.drop_last())),
            }
        }
    }
}

pub open spec fn mode_of(tag: Tag) -> Mode {
    match tag {
        Tag::Content | Tag::Number => Mode::Content,
        Tag::Date => Mode::Date,
        _ => Mode::Outside,
    }
}

/// Whether a document that is not binary holds a late date. Numbers, data and other
/// dates before it are not looked into, so it does not matter if they can be read.
pub open spec fn has_late_date(bytes: Seq<u8>) -> bool {
    let marked = bytes.len() >= 3 && bytes[0] == 0xef && bytes[1] == 0xbb && bytes[2] == 0xbf;
    !word_at(bytes, 0, "bplist00"@) && late_from(
        bytes,
        if marked {
            3
        } else {
            0
        },
        Mode::Outside,
        Seq::empty(),
        Seq::empty(),
    )
}

fn push_codes(text: &mut Vec<u32>, bytes: &[u8], from: usize, end: usize)
    requires
        from <= end <= bytes@.len(),
    ensures
        final(text)@ == old(text)@ + codes_of(bytes@, from as int, end as int),
{
    let mut i: usize = from;
    while i < end
        invariant
            from <= i <= end <= bytes@.len(),
            text@ == old(text)@ + codes_of(bytes@, from as int, i as int),
        decreases end - i,
    {
        text.push(bytes[i] as u32);
        i = i + 1;
        assert(text@ =~= old(text)@ + codes_of(bytes@, from as int, i as int));
    }
}

/// Whether a document that is not binary holds a late date.
pub fn holds_late_date(bytes: &[u8]) -> (late_date: bool)
    ensures
        late_date == has_late_date(bytes@),
{
    if has_word(bytes, 0, "bplist00") {
        return false;
    }
    let len: usize = bytes.len();
    let mut pos: usize = if len >= 3 && bytes[0] == 0xef && bytes[1] == 0xbb && bytes[2] == 0xbf {
        3
    } else {
        0
    };
    let mut mode = Mode::Outside;
    let mut text: Vec<u32> = Vec::new();
    let mut open: Vec<(usize, usize)> = Vec::new();
    assert(text@ =~= Seq::empty());
    assert(open@ =~= Seq::empty());
    while pos < len
        invariant
            pos <= len == bytes@.len(),
            forall|i: int|
                0 <= i < open@.len() ==> (#[trigger] open@[i]).0 <= open@[i].1 <= bytes@.len(),
            late_from(bytes@, pos as int, mode, text@, open@) == has_late_date(bytes@),
        decreases len - pos,
    {
        let (piece, next): (Piece, usize) = find_piece(bytes, pos);
        match piece {
            Piece::Broken => {
                return false;
            },
            Piece::Skipped => {},
            Piece::Text => {
                if mode == Mode::Outside && !all_blank(bytes, pos, next) {
                    return false;
                }
                if mode == Mode::Date {
                    push_codes(&mut text, bytes, pos, next);
                }
            },
            Piece::Reference => {
                match find_referent(bytes, pos + 1, next - 1) {
                    Referent::Code(c) => {
                        if mode == Mode::Outside && !is_blank_code(c) {
                            return false;
                        }
                        if mode == Mode::Date {
                            text.push(c);
                        }
                    },
                    Referent::Nothing => {
                        if mode == Mode::Outside {
                            return false;
                        }
                    },
                    Referent::Invalid => {
                        return false;
                    },
                }
            },
            Piece::Start => {
                if mode != Mode::Outside {
                    return false;
                }
                if bytes[next - 2] == 47 {
                    let tag = find_tag(bytes, pos + 1, next - 2);
                    if tag != Tag::Holder && tag != Tag::Content {
                        return false;
                    }
                } else {
                    let tag = find_tag(bytes, pos + 1, next - 1);
                    if tag == Tag::Unknown {
                        return false;
                    }
                    mode = match tag {
                        Tag::Content | Tag::Number => Mode::Content,
                        Tag::Date => Mode::Date,
                        _ => Mode::Outside,
                    };
                    text = Vec::new();
                    assert(text@ =~= Seq::empty());
                    open.push((pos + 1, find_name_end(bytes, pos + 1, next - 1)));
                }
            },
            Piece::End => {
                if !is_closing(bytes, pos, next, &open) {
                    return false;
                }
                if mode == Mode::Date && late(&text) {
                    return true;
                }
                mode = Mode::Outside;
                text = Vec::new();
                assert(text@ =~= Seq::empty());
                let ghost before = open@;
                open.pop();
                assert(open@ =~= before.drop_last());
            },
        }
        pos = next;
    }
    false
}

/// Text goes on up to the next markup or reference, and the name of a reference up to its
/// end, or to where another one or markup begins.
pub proof fn law_text_ends(bytes: Seq<u8>, i: int, end: int)
    requires
        0 <= i <= end <= bytes.len(),
    ensures
        (forall|k: int| i <= k < end ==> #[trigger] bytes[k] != '<' as u8 && bytes[k] != '&' as u8)
            && (end == bytes.len() || bytes[end] == '<' as u8 || bytes[end] == '&' as u8)
            ==> text_end(bytes, i) == end,
        (forall|k: int|
            i <= k < end ==> #[trigger] bytes[k] != '<' as u8 && bytes[k] != '&' as u8 && bytes[k]
                != ';' as u8) && (end == bytes.len() || bytes[end] == '<' as u8 || bytes[end]
            == '&' as u8 || bytes[end] == ';' as u8) ==> reference_end(bytes, i) == end,
    decreases end - i,
{
    assert('<' as u8 == 60 && '&' as u8 == 38 && ';' as u8 == 59);
    if i < end {
        law_text_ends(bytes, i + 1, end);
    }
}

/// What is skipped is closed by the first `>` behind its one or two closing marks.
pub proof fn law_closing_end(bytes: Seq<u8>, i: int, mark: u8, end: int)
    requires
        2 <= i <= end <= bytes.len(),
    ensures
        (forall|k: int|
            i <= k < end ==> !(#[trigger] bytes[k] == '>' as u8 && bytes[k - 1] == mark)) && (end
            == bytes.len() || (bytes[end] == '>' as u8 && bytes[end - 1] == mark)) ==> closing_end(
            bytes,
            i,
            mark,
            1,
        ) == end,
        (forall|k: int|
            i <= k < end ==> !(#[trigger] bytes[k] == '>' as u8 && bytes[k - 1] == mark && bytes[k
                - 2] == mark)) && (end == bytes.len() || (bytes[end] == '>' as u8 && bytes[end - 1]
            == mark && bytes[end - 2] == mark)) ==> closing_end(bytes, i, mark, 2) == end,
    decreases end - i,
{
    assert('>' as u8 == 62);
    if i < end {
        law_closing_end(bytes, i + 1, mark, end);
    }
}

/// A tag ends with the first `>` that is not in quotes, and quotes end where the same mark
/// comes again.
pub proof fn law_tag_end(bytes: Seq<u8>, i: int, end: int)
    requires
        0 <= i <= end < bytes.len(),
    ensures
        (forall|k: int|
            i <= k < end ==> #[trigger] bytes[k] != '>' as u8 && bytes[k] != '"' as u8 && bytes[k]
                != '\'' as u8) && bytes[end] == '>' as u8 ==> tag_end(bytes, i, 0) == end,
        i < end && (bytes[i] == '"' as u8 || bytes[i] == '\'' as u8) && (forall|k: int|
            i < k < end ==> #[trigger] bytes[k] != bytes[i]) && bytes[end] == bytes[i] ==> tag_end(
            bytes,
            i,
            0,
        ) == tag_end(bytes, end + 1, 0),
    decreases end - i,
{
    assert('>' as u8 == 62 && '"' as u8 == 34 && '\'' as u8 == 39);
    if i < end {
        law_tag_end(bytes, i + 1, end);
        if (bytes[i] == 34 || bytes[i] == 39) && bytes[end] == bytes[i] && (forall|k: int|
            i < k < end ==> #[trigger] bytes[k] != bytes[i]) {
            lemma_quoted(bytes, i + 1, bytes[i], end);
        }
    }
}

proof fn lemma_quoted(bytes: Seq<u8>, i: int, quote: u8, end: int)
    requires
        0 <= i <= end < bytes.len(),
        quote != 0,
        forall|k: int| i <= k < end ==> #[trigger] bytes[k] != quote,
        bytes[end] == quote,
    ensures
        tag_end(bytes, i, quote) == tag_end(bytes, end + 1, 0),
    decreases end - i,
{
    if i < end {
        lemma_quoted(bytes, i + 1, quote, end);
    }
}

/// White space of XML is dropped at an end, and ends the name of an element. A prefix of
/// the name is what stands before its first colon.
pub proof fn law_names(bytes: Seq<u8>, from: int, middle: int, end: int)
    requires
        0 <= from <= middle <= end <= bytes.len(),
    ensures
        forall|b: u8|
            #![trigger is_gap(b)]
            is_gap(b) <==> b == ' ' as u8 || b == '\t' as u8 || b == '\n' as u8 || b == '\r' as u8,
        (forall|k: int| middle <= k < end ==> is_gap(#[trigger] bytes[k])) && (from == middle
            || !is_gap(bytes[middle - 1])) ==> trimmed_end(bytes, from, end) == middle,
        (forall|k: int| from <= k < middle ==> !is_gap(#[trigger] bytes[k])) && (middle == end
            || is_gap(bytes[middle])) ==> name_end(bytes, from, end) == middle,
        (forall|k: int| from <= k < middle ==> #[trigger] bytes[k] != ':' as u8) && middle < end
            && bytes[middle] == ':' as u8 ==> local_start(bytes, from, end, from) == middle + 1,
        (forall|k: int| from <= k < end ==> #[trigger] bytes[k] != ':' as u8) ==> local_start(
            bytes,
            from,
            end,
            from,
        ) == from,
{
    assert(':' as u8 == 58 && ' ' as u8 == 32 && '\t' as u8 == 9 && '\n' as u8 == 10 && '\r' as u8
        == 13);
    lemma_trimmed_end(bytes, from, middle, end);
    lemma_name_end(bytes, from, middle, end);
    lemma_local_start(bytes, from, middle, end, from);
    lemma_local_start(bytes, from, end, end, from);
}

proof fn lemma_trimmed_end(bytes: Seq<u8>, from: int, middle: int, end: int)
    requires
        0 <= from <= middle <= end <= bytes.len(),
    ensures
        (forall|k: int| middle <= k < end ==> is_gap(#[trigger] bytes[k])) && (from == middle
            || !is_gap(bytes[middle - 1])) ==> trimmed_end(bytes, from, end) == middle,
    decreases end,
{
    if middle < end {
        lemma_trimmed_end(bytes, from, middle, end - 1);
        assert(is_gap(bytes[end - 1]) || !is_gap(bytes[end - 1]));
    }
}

proof fn lemma_name_end(bytes: Seq<u8>, from: int, middle: int, end: int)
    requires
        0 <= from <= middle <= end <= bytes.len(),
    ensures
        (forall|k: int| from <= k < middle ==> !is_gap(#[trigger] bytes[k])) && (middle == end
            || is_gap(bytes[middle])) ==> name_end(bytes, from, end) == middle,
    decreases middle - from,
{
    if from < middle {
        lemma_name_end(bytes, from + 1, middle, end);
    }
}

proof fn lemma_local_start(bytes: Seq<u8>, i: int, middle: int, end: int, from: int)
    requires
        0 <= i <= middle <= end <= bytes.len(),
    ensures
        (forall|k: int| i <= k < middle ==> #[trigger] bytes[k] != 58) && middle < end
            && bytes[middle] == 58 ==> local_start(bytes, i, end, from) == middle + 1,
        (forall|k: int| i <= k < middle ==> #[trigger] bytes[k] != 58) && middle == end
            ==> local_start(bytes, i, end, from) == from,
    decreases middle - i,
{
    if i < middle {
        lemma_local_start(bytes, i + 1, middle, end, from);
    }
}

/// Digits have their values, in either case, and only up to the base. Each further digit
/// makes the number as much larger as the base says; what is too large for a character
/// stays so.
pub proof fn law_numbers(bytes: Seq<u8>, from: int, end: int, base: int, so_far: int)
    requires
        0 <= from <= end < bytes.len(),
        base == 10 || base == 16,
        0 <= so_far <= 0x11_0000,
    ensures
        forall|b: u8| #[trigger]
            digit_of(b, 16) == if ('0' as u8) <= b <= '9' as u8 {
                Some(b - 48)
            } else if ('a' as u8) <= b <= 'f' as u8 {
                Some(b - 97 + 10)
            } else if ('A' as u8) <= b <= 'F' as u8 {
                Some(b - 65 + 10)
            } else {
                None
            },
        forall|b: u8| #[trigger]
            digit_of(b, 10) == if ('0' as u8) <= b <= '9' as u8 {
                Some(b - 48)
            } else {
                None
            },
        number_from(bytes, from, from, base, so_far) == Some(so_far),
        ({
            let before = number_from(bytes, from, end, base, so_far);
            let digit = digit_of(bytes[end], base);
            let after = number_from(bytes, from, end + 1, base, so_far);
            &&& before is None || digit is None ==> after is None
            &&& before is Some && digit is Some && before->0 * base + digit->0 < 0x11_0000 ==> after
                == Some(before->0 * base + digit->0)
            &&& before is Some && digit is Some && before->0 * base + digit->0 >= 0x11_0000
                ==> after == Some(0x11_0000int)
        }),
    decreases end - from,
{
    assert('0' as u8 == 48 && '9' as u8 == 57 && 'a' as u8 == 97 && 'f' as u8 == 102 && 'A' as u8
        == 65 && 'F' as u8 == 70);
    if from < end {
        match digit_of(bytes[from], base) {
            Some(d) => {
                let n = if so_far * base + d > TOO_LARGE {
                    TOO_LARGE as int
                } else {
                    so_far * base + d
                };
                assert(so_far * base >= 0) by (nonlinear_arith)
                    requires
                        so_far >= 0,
                        base >= 0,
                ;
                law_numbers(bytes, from + 1, end, base, n);
            },
            None => {},
        }
    } else {
        reveal_with_fuel(number_from, 2);
    }
}

/// A reference is one of the five names of XML, or a number behind `#`, in base sixteen
/// behind an `x`, that is the code of a character. Another name stands for nothing.
pub proof fn law_references(bytes: Seq<u8>, from: int, end: int)
    requires
        0 <= from < end <= bytes.len(),
    ensures
        is_word(bytes, from, end, "lt"@) ==> referent_of(bytes, from, end) == Referent::Code(
            '<' as u32,
        ),
        is_word(bytes, from, end, "gt"@) ==> referent_of(bytes, from, end) == Referent::Code(
            '>' as u32,
        ),
        is_word(bytes, from, end, "amp"@) ==> referent_of(bytes, from, end) == Referent::Code(
            '&' as u32,
        ),
        is_word(bytes, from, end, "apos"@) ==> referent_of(bytes, from, end) == Referent::Code(
            '\'' as u32,
        ),
        is_word(bytes, from, end, "quot"@) ==> referent_of(bytes, from, end) == Referent::Code(
            '"' as u32,
        ),
        bytes[from] == '#' as u8 && from + 1 < end && bytes[from + 1] != 'x' as u8 ==> {
            let n = number_from(bytes, from + 1, end, 10, 0);
            &&& n is None ==> referent_of(bytes, from, end) is Invalid
            &&& n matches Some(code) ==> referent_of(bytes, from, end) == if 0 < code < 0xd800
                || 0xe000 <= code < 0x11_0000 {
                Referent::Code(code as u32)
            } else {
                Referent::Invalid
            }
        },
        bytes[from] == '#' as u8 && from + 2 < end && bytes[from + 1] == 'x' as u8 ==> {
            let n = number_from(bytes, from + 2, end, 16, 0);
            &&& n is None ==> referent_of(bytes, from, end) is Invalid
            &&& n matches Some(code) ==> referent_of(bytes, from, end) == if 0 < code < 0xd800
                || 0xe000 <= code < 0x11_0000 {
                Referent::Code(code as u32)
            } else {
                Referent::Invalid
            }
        },
        bytes[from] == '#' as u8 && from + 1 == end ==> referent_of(bytes, from, end) is Invalid,
        referent_of(bytes, from, end) is Nothing ==> bytes[from] != '#' as u8,
{
    assert('<' as u32 == 60 && '>' as u32 == 62 && '&' as u32 == 38 && '\'' as u32 == 39 && '"'
        as u32 == 34 && '#' as u8 == 35 && 'x' as u8 == 120);
    reveal_strlit("lt");
    reveal_strlit("gt");
    reveal_strlit("amp");
    reveal_strlit("apos");
    reveal_strlit("quot");
    assert("lt"@[0] == 'l' && "gt"@[0] == 'g' && "amp"@[0] == 'a' && "apos"@[0] == 'a'
        && "quot"@[0] == 'q' && "amp"@.len() == 3 && "apos"@.len() == 4 && "lt"@.len() == 2
        && "gt"@.len() == 2 && "quot"@.len() == 4);
    assert(bytes[from + 0] == bytes[from]);
}

/// Which characters are white space between elements, by the bytes that encode them.
pub proof fn law_blank(bytes: Seq<u8>, i: int, end: int)
    requires
        0 <= i < end <= bytes.len(),
    ensures
        bytes[i] < 128 ==> blank_len(bytes, i, end) == if 9 <= bytes[i] <= 13 || bytes[i] == 32 {
            1int
        } else {
            0
        },
        bytes[i] == 0xc2 && i + 1 < end ==> blank_len(bytes, i, end) == if bytes[i + 1] == 0x85
            || bytes[i + 1] == 0xa0 {
            2int
        } else {
            0
        },
        bytes[i] == 0xe2 && i + 2 < end && bytes[i + 1] == 0x80 && 128 <= bytes[i + 2] < 192
            ==> blank_len(bytes, i, end) == if bytes[i + 2] <= 0x8a || bytes[i + 2] == 0xa8
            || bytes[i + 2] == 0xa9 || bytes[i + 2] == 0xaf {
            3int
        } else {
            0
        },
        bytes[i] == 0xe3 && i + 2 < end && bytes[i + 1] == 0x80 && 128 <= bytes[i + 2] < 192
            ==> blank_len(bytes, i, end) == if bytes[i + 2] == 0x80 {
            3int
        } else {
            0
        },
        bytes[i] >= 0xe4 || 0xc3 <= bytes[i] < 0xe1 ==> blank_len(bytes, i, end) == 0,
        is_blank(bytes, end, end),
        blank_len(bytes, i, end) == 0 ==> !is_blank(bytes, i, end),
        blank_len(bytes, i, end) > 0 ==> is_blank(bytes, i, end) == is_blank(
            bytes,
            i + blank_len(bytes, i, end),
            end,
        ),
{
}

/// A date on the last day of the year 9999 is late where it falls into the next year in
/// GMT: where its time and the offset that it is behind make a day or more.
pub proof fn law_late(text: Seq<u32>, h: int, m: int, s: int, behind_h: int, behind_m: int)
    requires
        text.len() == 25,
        text[0] == '9' as u32 && text[1] == '9' as u32 && text[2] == '9' as u32 && text[3]
            == '9' as u32 && text[4] == '-' as u32 && text[5] == '1' as u32 && text[6] == '2' as u32
            && text[7] == '-' as u32 && text[8] == '3' as u32 && text[9] == '1' as u32,
        text[10] < 128 && text[13] == ':' as u32 && text[16] == ':' as u32 && text[19]
            == '-' as u32 && text[22] == ':' as u32,
        0 <= h < 24 && 0 <= m < 60 && 0 <= s < 60 && 0 <= behind_h < 24 && 0 <= behind_m < 60,
        text[11] == 48 + h / 10 && text[12] == 48 + h % 10,
        text[14] == 48 + m / 10 && text[15] == 48 + m % 10,
        text[17] == 48 + s / 10 && text[18] == 48 + s % 10,
        text[20] == 48 + behind_h / 10 && text[21] == 48 + behind_h % 10,
        text[23] == 48 + behind_m / 10 && text[24] == 48 + behind_m % 10,
    ensures
        is_late(text) <==> (60 * h + m) + (60 * behind_h + behind_m) >= 24 * 60,
{
    reveal_strlit("9999-12-31?##:##:##");
    reveal_strlit("-##:##");
    assert('9' as u32 == 57 && '-' as u32 == 45 && '1' as u32 == 49 && '2' as u32 == 50 && '3'
        as u32 == 51 && ':' as u32 == 58);
    let date = "9999-12-31?##:##:##"@;
    let offset = "-##:##"@;
    assert(date.len() == 19 && offset.len() == 6);
    assert(two_digits(text, 11) == h);
    assert(two_digits(text, 14) == m);
    assert(two_digits(text, 17) == s);
    assert(two_digits(text, 20) == behind_h);
    assert(two_digits(text, 23) == behind_m);
    assert forall|k: int| 0 <= k < date.len() implies fits_form(
        text[0 + k],
        #[trigger] date[k],
    ) by {
        lemma_date_form(k);
    }
    assert forall|k: int| 0 <= k < offset.len() implies fits_form(
        text[19 + k],
        #[trigger] offset[k],
    ) by {
        assert(k == 0 || k == 1 || k == 2 || k == 3 || k == 4 || k == 5);
    }
    assert(has_form(text, 0, date));
    assert(has_form(text, 19, offset));
}

proof fn lemma_date_form(k: int)
    requires
        0 <= k < 19,
    ensures
        "9999-12-31?##:##:##"@[k] == if k <= 3 {
            '9'
        } else if k == 4 || k == 7 {
            '-'
        } else if k == 5 || k == 9 {
            '1'
        } else if k == 6 {
            '2'
        } else if k == 8 {
            '3'
        } else if k == 10 {
            '?'
        } else if k == 13 || k == 16 {
            ':'
        } else {
            '#'
        },
{
    reveal_strlit("9999-12-31?##:##:##");
    assert(k == 0 || k == 1 || k == 2 || k == 3 || k == 4 || k == 5 || k == 6 || k == 7 || k == 8
        || k == 9 || k == 10 || k == 11 || k == 12 || k == 13 || k == 14 || k == 15 || k == 16 || k
        == 17 || k == 18);
}

/// A date element whose text is late is found, and one whose text is not is passed over.
pub proof fn law_date_element(
    bytes: Seq<u8>,
    pos: int,
    text_start: int,
    end_start: int,
    next: int,
    text: Seq<u32>,
    open: Seq<(usize, usize)>,
)
    requires
        0 <= pos < text_start < end_start < next <= bytes.len(),
        piece_at(bytes, pos) == (Piece::Start, text_start),
        text_start >= 2 && bytes[text_start - 2] != '/' as u8,
        tag_of(bytes, pos + 1, text_start - 1) == Tag::Date,
        piece_at(bytes, text_start) == (Piece::Text, end_start),
        piece_at(bytes, end_start) == (Piece::End, next),
    ensures
        ({
            let name = (
                (pos + 1) as usize,
                name_end(bytes, pos + 1, text_start - 1) as usize,
            );
            let closed = closes(bytes, end_start, next, open.push(name));
            let late = is_late(codes_of(bytes, text_start, end_start));
            &&& closed && late ==> late_from(bytes, pos, Mode::Outside, text, open)
            &&& closed && !late ==> late_from(bytes, pos, Mode::Outside, text, open) == late_from(
                bytes,
                next,
                Mode::Outside,
                Seq::empty(),
                open,
            )
            &&& !closed ==> !late_from(bytes, pos, Mode::Outside, text, open)
        }),
{
    assert('/' as u8 == 47);
    let name = ((pos + 1) as usize, name_end(bytes, pos + 1, text_start - 1) as usize);
    reveal_with_fuel(late_from, 4);
    assert(Seq::<u32>::empty() + codes_of(bytes, text_start, end_start) =~= codes_of(
        bytes,
        text_start,
        end_start,
    ));
    assert(open.push(name).drop_last() =~= open);
}

/// Text that is skipped, or that belongs to another element, says nothing; what is broken
/// ends the search, as text between elements does that is not white space.
pub proof fn law_other_pieces(
    bytes: Seq<u8>,
    pos: int,
    mode: Mode,
    text: Seq<u32>,
    open: Seq<(usize, usize)>,
    next: int,
)
    requires
        0 <= pos < next <= bytes.len(),
        piece_at(bytes, pos).1 == next,
    ensures
        ({
            let found = late_from(bytes, pos, mode, text, open);
            let rest = late_from(bytes, next, mode, text, open);
            let piece = piece_at(bytes, pos).0;
            &&& piece is Skipped ==> found == rest
            &&& piece is Broken ==> !found
            &&& piece is Text && mode is Content ==> found == rest
            &&& piece is Text && mode is Outside && is_blank(bytes, pos, next) ==> found == rest
            &&& piece is Text && mode is Outside && !is_blank(bytes, pos, next) ==> !found
            &&& piece is Start && !(mode is Outside) ==> !found
            &&& piece is End && open.len() == 0 ==> !found
        }),
        late_from(bytes, bytes.len() as int, mode, text, open) == false,
{
}

/// A binary document holds no text, and a mark of UTF-8 before a text does not count.
pub proof fn law_documents(bytes: Seq<u8>)
    ensures
        word_at(bytes, 0, "bplist00"@) ==> !has_late_date(bytes),
        bytes.len() >= 3 && bytes[0] == 0xef && bytes[1] == 0xbb && bytes[2] == 0xbf
            ==> has_late_date(bytes) == late_from(
            bytes,
            3,
            Mode::Outside,
            Seq::empty(),
            Seq::empty(),
        ),
        bytes.len() > 0 && bytes[0] != 0xef && !word_at(bytes, 0, "bplist00"@) ==> has_late_date(
            bytes,
        ) == late_from(bytes, 0, Mode::Outside, Seq::empty(), Seq::empty()),
{
    reveal_strlit("bplist00");
    let word = "bplist00"@;
    if word_at(bytes, 0, word) {
        assert(bytes[0int + 0] as char == word[0]);
        assert(bytes[0] == 98);
    }
}

/// What begins at a place is told by its first bytes: a reference, text, a comment, a
/// section of character data, an instruction, or the end or the start of an element. Each
/// goes on behind its last byte, and is broken if that is missing.
pub proof fn law_pieces(bytes: Seq<u8>, pos: int)
    requires
        0 <= pos < bytes.len(),
    ensures
        ({
            let (piece, next) = piece_at(bytes, pos);
            let len = bytes.len() as int;
            let comment = closing_end(bytes, pos + 6, '-' as u8, 2);
            let section = closing_end(bytes, pos + 4, ']' as u8, 2);
            let instruction = closing_end(bytes, pos + 3, '?' as u8, 1);
            let end_tag = tag_end(bytes, pos + 2, 0);
            let start_tag = tag_end(bytes, pos + 1, 0);
            let name = reference_end(bytes, pos + 1);
            &&& bytes[pos] == '&' as u8 && name < len && bytes[name] == ';' as u8 ==> piece
                is Reference && next == name + 1
            &&& bytes[pos] == '&' as u8 && (name >= len || bytes[name] != ';' as u8) ==> piece
                is Broken
            &&& bytes[pos] != '&' as u8 && bytes[pos] != '<' as u8 ==> piece is Text && next
                == text_end(bytes, pos)
            &&& bytes[pos] == '<' as u8 && word_at(bytes, pos + 1, "!--"@) && comment < len ==> piece
                is Skipped && next == comment + 1
            &&& bytes[pos] == '<' as u8 && word_at(bytes, pos + 1, "![CDATA["@) && section < len
                ==> piece is Skipped && next == section + 1
            &&& bytes[pos] == '<' as u8 && pos + 2 < len && bytes[pos + 1] == '?' as u8 && bytes[pos
                + 2] != '>' as u8 && instruction < len ==> piece is Skipped && next == instruction
                + 1
            &&& bytes[pos] == '<' as u8 && pos + 1 < len && bytes[pos + 1] == '/' as u8 && end_tag
                < len ==> piece is End && next == end_tag + 1
            &&& bytes[pos] == '<' as u8 && pos + 1 < len && bytes[pos + 1] != '!' as u8 && bytes[pos
                + 1] != '?' as u8 && bytes[pos + 1] != '/' as u8 && start_tag < len ==> piece
                is Start && next == start_tag + 1
        }),
{
    assert('&' as u8 == 38 && '<' as u8 == 60 && ';' as u8 == 59 && '-' as u8 == 45 && ']' as u8
        == 93 && '?' as u8 == 63 && '/' as u8 == 47 && '!' as u8 == 33 && '>' as u8 == 62);
    reveal_strlit("!--");
    reveal_strlit("![CDATA[");
    reveal_strlit("!doctype");
    reveal_strlit("!");
    reveal_strlit("?>");
    reveal_strlit("?");
    reveal_strlit("/");
    let at = pos + 1;
    if at < bytes.len() {
        let first = bytes[at];
        assert(bytes[at + 0] == first);
        assert(word_at(bytes, at, "!--"@) ==> bytes[at + 0] as char == "!--"@[0]);
        assert(word_at(bytes, at, "![CDATA["@) ==> bytes[at + 0] as char == "![CDATA["@[0]);
        assert(word_at(bytes, at, "![CDATA["@) ==> bytes[at + 1] as char == "![CDATA["@[1]);
        assert(word_at(bytes, at, "!--"@) ==> bytes[at + 1] as char == "!--"@[1]);
        assert(any_case_at(bytes, at, "!doctype"@) ==> lower_byte(bytes[at + 0]) as char
            == "!doctype"@[0]);
        assert(any_case_at(bytes, at, "!doctype"@) ==> lower_byte(bytes[at + 1]) as char
            == "!doctype"@[1]);
        assert(word_at(bytes, at, "!"@) <==> first as char == "!"@[0]);
        assert(word_at(bytes, at, "?"@) <==> first as char == "?"@[0]);
        assert(word_at(bytes, at, "/"@) <==> first as char == "/"@[0]);
        assert(word_at(bytes, at, "?>"@) ==> bytes[at + 0] as char == "?>"@[0] && bytes[at
            + 1] as char == "?>"@[1]);
    }
}

/// The document type ends with the first `>` that is not in quotes, where it has no subset
/// of its own; a subset ends with its bracket, which does not count in its declarations.
pub proof fn law_document_type(bytes: Seq<u8>, i: int, end: int, quote: u8)
    requires
        0 <= i < end < bytes.len(),
    ensures
        (forall|k: int|
            i <= k < end ==> #[trigger] bytes[k] != '>' as u8 && bytes[k] != '[' as u8 && bytes[k]
                != '"' as u8 && bytes[k] != '\'' as u8) && bytes[end] == '>' as u8 ==> type_end(
            bytes,
            i,
            TypePart::Before(0),
        ) == end,
        bytes[i] == '[' as u8 ==> type_end(bytes, i, TypePart::Before(0)) == type_end(
            bytes,
            i + 1,
            TypePart::Inside,
        ),
        quote != 0 && bytes[i] != quote ==> type_end(bytes, i, TypePart::Before(quote)) == type_end(
            bytes,
            i + 1,
            TypePart::Before(quote),
        ),
        quote != 0 && bytes[i] == quote ==> type_end(bytes, i, TypePart::Before(quote)) == type_end(
            bytes,
            i + 1,
            TypePart::Before(0),
        ),
        bytes[i] == ']' as u8 ==> type_end(bytes, i, TypePart::Inside) == type_end(
            bytes,
            i + 1,
            TypePart::After,
        ),
        bytes[i] != ']' as u8 && bytes[i] != '<' as u8 ==> type_end(bytes, i, TypePart::Inside)
            == type_end(bytes, i + 1, TypePart::Inside),
        bytes[i] == '>' as u8 ==> type_end(bytes, i, TypePart::Plain) == type_end(
            bytes,
            i + 1,
            TypePart::Inside,
        ) && type_end(bytes, i, TypePart::Quoted(0)) == type_end(bytes, i + 1, TypePart::Inside)
            && type_end(bytes, i, TypePart::After) == i,
        bytes[i] != '>' as u8 ==> type_end(bytes, i, TypePart::Plain) == type_end(
            bytes,
            i + 1,
            TypePart::Plain,
        ) && type_end(bytes, i, TypePart::After) == type_end(bytes, i + 1, TypePart::After),
    decreases end - i,
{
    assert('>' as u8 == 62 && '[' as u8 == 91 && ']' as u8 == 93 && '"' as u8 == 34 && '\'' as u8
        == 39 && '<' as u8 == 60);
    if i + 1 < end {
        law_document_type(bytes, i + 1, end, quote);
    }
    reveal_with_fuel(type_end, 2);
}

/// Elements are known by their names without a prefix, whatever follows the name.
pub proof fn law_tags(bytes: Seq<u8>, from: int, end: int, stop: int, start: int)
    requires
        stop == name_end(bytes, from, end),
        start == local_start(bytes, from, stop, from),
    ensures
        tag_of(bytes, from, end) == Tag::Date <==> is_word(bytes, start, stop, "date"@),
        is_word(bytes, start, stop, "key"@) || is_word(bytes, start, stop, "string"@) || is_word(
            bytes,
            start,
            stop,
            "data"@,
        ) ==> mode_of(tag_of(bytes, from, end)) is Content,
        is_word(bytes, start, stop, "integer"@) || is_word(bytes, start, stop, "real"@) ==> mode_of(
            tag_of(bytes, from, end),
        ) is Content,
        tag_of(bytes, from, end) is Date ==> mode_of(tag_of(bytes, from, end)) is Date,
        tag_of(bytes, from, end) is Holder ==> mode_of(tag_of(bytes, from, end)) is Outside,
        tag_of(bytes, from, end) is Holder ==> is_word(bytes, start, stop, "plist"@) || is_word(
            bytes,
            start,
            stop,
            "array"@,
        ) || is_word(bytes, start, stop, "dict"@) || is_word(bytes, start, stop, "true"@)
            || is_word(bytes, start, stop, "false"@),
{
    reveal_strlit("date");
    reveal_strlit("key");
    reveal_strlit("string");
    reveal_strlit("data");
    reveal_strlit("integer");
    reveal_strlit("real");
    if is_word(bytes, start, stop, "date"@) {
        assert(bytes[start + 0] as char == "date"@[0]);
        assert(bytes[start + 3] as char == "date"@[3]);
        if is_word(bytes, start, stop, "data"@) {
            assert(bytes[start + 3] as char == "data"@[3]);
            assert(false);
        }
        if is_word(bytes, start, stop, "real"@) {
            assert(bytes[start + 0] as char == "real"@[0]);
            assert(false);
        }
    }
}

/// A word in small letters stands at a place in any case where each byte is its letter, or
/// that letter as a capital.
pub proof fn law_any_case(bytes: Seq<u8>, i: int, word: Seq<char>)
    requires
        forall|k: int| 0 <= k < word.len() ==> (#[trigger] word[k] as u32) < 128,
    ensures
        any_case_at(bytes, i, word) <==> i + word.len() <= bytes.len() && forall|k: int|
            0 <= k < word.len() ==> {
                let byte = bytes[i + k];
                if ('A' as u8) <= byte <= 'Z' as u8 {
                    byte + 32 == #[trigger] word[k] as int
                } else {
                    byte == word[k] as int
                }
            },
{
    assert('A' as u8 == 65 && 'Z' as u8 == 90);
    assert forall|k: int| 0 <= k < word.len() implies (lower_byte(bytes[i + k]) as char
        == #[trigger] word[k]) == (lower_byte(bytes[i + k]) == word[k] as int) by {
        let c = word[k];
        vstd::utf8::char_u32_cast(c, c as u32);
        if lower_byte(bytes[i + k]) == c as int {
            assert(lower_byte(bytes[i + k]) as char == c);
        }
    }
}

/// Only capital letters have another case.
pub proof fn law_lower_byte(byte: u8)
    ensures
        ('A' as u8) <= byte <= 'Z' as u8 ==> lower_byte(byte) == byte + ('a' as u8 - 'A' as u8),
        byte < 'A' as u8 || byte > 'Z' as u8 ==> lower_byte(byte) == byte,
{
    assert('A' as u8 == 65 && 'Z' as u8 == 90 && 'a' as u8 == 97);
}

} // verus!
