//! String encodings: from bytes to text and back.
use crate::code_units;
use crate::objc::StringHostObject;
use crate::text::chars_of;
use vstd::prelude::*;
use vstd::utf8;

verus! {

pub const NSASCIIStringEncoding: u32 = 1;

pub const NSNEXTSTEPStringEncoding: u32 = 2;

pub const NSJapaneseEUCStringEncoding: u32 = 3;

pub const NSUTF8StringEncoding: u32 = 4;

pub const NSISOLatin1StringEncoding: u32 = 5;

pub const NSNonLossyASCIIStringEncoding: u32 = 7;

pub const NSShiftJISStringEncoding: u32 = 8;

pub const NSISOLatin2StringEncoding: u32 = 9;

pub const NSUnicodeStringEncoding: u32 = 10;

pub const NSUTF16StringEncoding: u32 = 10;

pub const NSWindowsCP1251StringEncoding: u32 = 11;

pub const NSWindowsCP1252StringEncoding: u32 = 12;

pub const NSWindowsCP1253StringEncoding: u32 = 13;

pub const NSWindowsCP1254StringEncoding: u32 = 14;

pub const NSWindowsCP1250StringEncoding: u32 = 15;

pub const NSISO2022JPStringEncoding: u32 = 21;

pub const NSMacOSRomanStringEncoding: u32 = 30;

pub const NSUTF16BigEndianStringEncoding: u32 = 0x9000_0100;

pub const NSUTF16LittleEndianStringEncoding: u32 = 0x9400_0100;

pub const NSUTF32StringEncoding: u32 = 0x8c00_0100;

pub const NSUTF32BigEndianStringEncoding: u32 = 0x9800_0100;

pub const NSUTF32LittleEndianStringEncoding: u32 = 0x9c00_0100;

pub const NSDOSChineseSimplifStringEncoding: u32 = 0x8000_0421;

pub const NSGB2312StringEncoding: u32 = 0x8000_0630;

pub const NSGBKStringEncoding: u32 = 0x8000_0631;

pub const NSGB18030StringEncoding: u32 = 0x8000_0632;

pub const NSEUCCNStringEncoding: u32 = 0x8000_0930;

pub const NSEUCKRStringEncoding: u32 = 0x8000_0940;

pub const NSBig5StringEncoding: u32 = 0x8000_0a03;

/// The contents of a string object as sequences.
#[verifier::ext_equal]
pub enum StringView {
    Utf8(Seq<char>),
    Utf16(Seq<u16>),
}

impl View for StringHostObject {
    type V = StringView;

    open spec fn view(&self) -> StringView {
        match self {
            StringHostObject::Utf8(s) => StringView::Utf8(s@),
            StringHostObject::Utf16(u) => StringView::Utf16(u@),
        }
    }
}

pub open spec fn ascii_like(encoding: u32) -> bool {
    encoding == NSASCIIStringEncoding || encoding == NSNonLossyASCIIStringEncoding || encoding
        == NSNEXTSTEPStringEncoding
}

pub open spec fn utf8_like(encoding: u32) -> bool {
    encoding == NSUTF8StringEncoding || encoding == 0
}

pub open spec fn utf16_like(encoding: u32) -> bool {
    encoding == NSUTF16StringEncoding || encoding == NSUTF16BigEndianStringEncoding || encoding
        == NSUTF16LittleEndianStringEncoding
}

pub open spec fn utf32_like(encoding: u32) -> bool {
    encoding == NSUTF32StringEncoding || encoding == NSUTF32BigEndianStringEncoding || encoding
        == NSUTF32LittleEndianStringEncoding
}

/// The label of an encoding that is neither ASCII, Latin-1 nor Unicode.
pub open spec fn legacy_label(encoding: u32) -> Option<Seq<char>> {
    if encoding == NSMacOSRomanStringEncoding {
        Some("macintosh"@)
    } else if encoding == NSWindowsCP1252StringEncoding {
        Some("windows-1252"@)
    } else if encoding == NSWindowsCP1251StringEncoding {
        Some("windows-1251"@)
    } else if encoding == NSWindowsCP1250StringEncoding {
        Some("windows-1250"@)
    } else if encoding == NSWindowsCP1253StringEncoding {
        Some("windows-1253"@)
    } else if encoding == NSWindowsCP1254StringEncoding {
        Some("windows-1254"@)
    } else if encoding == NSISOLatin2StringEncoding {
        Some("iso-8859-2"@)
    } else if encoding == NSShiftJISStringEncoding {
        Some("shift_jis"@)
    } else if encoding == NSJapaneseEUCStringEncoding {
        Some("euc-jp"@)
    } else if encoding == NSISO2022JPStringEncoding {
        Some("iso-2022-jp"@)
    } else if encoding == NSGB18030StringEncoding {
        Some("gb18030"@)
    } else if encoding == NSGBKStringEncoding || encoding == NSGB2312StringEncoding || encoding
        == NSEUCCNStringEncoding || encoding == NSDOSChineseSimplifStringEncoding {
        Some("gbk"@)
    } else if encoding == NSBig5StringEncoding {
        Some("big5"@)
    } else if encoding == NSEUCKRStringEncoding {
        Some("euc-kr"@)
    } else {
        None
    }
}

/// The label of the encoding in the WHATWG Encoding Standard.
pub fn legacy_encoding_for(encoding: u32) -> (label: Option<&'static str>)
    ensures
        match label {
            Some(l) => legacy_label(encoding) == Some(l@),
            None => legacy_label(encoding) is None,
        },
{
    if encoding == NSMacOSRomanStringEncoding {
        Some("macintosh")
    } else if encoding == NSWindowsCP1252StringEncoding {
        Some("windows-1252")
    } else if encoding == NSWindowsCP1251StringEncoding {
        Some("windows-1251")
    } else if encoding == NSWindowsCP1250StringEncoding {
        Some("windows-1250")
    } else if encoding == NSWindowsCP1253StringEncoding {
        Some("windows-1253")
    } else if encoding == NSWindowsCP1254StringEncoding {
        Some("windows-1254")
    } else if encoding == NSISOLatin2StringEncoding {
        Some("iso-8859-2")
    } else if encoding == NSShiftJISStringEncoding {
        Some("shift_jis")
    } else if encoding == NSJapaneseEUCStringEncoding {
        Some("euc-jp")
    } else if encoding == NSISO2022JPStringEncoding {
        Some("iso-2022-jp")
    } else if encoding == NSGB18030StringEncoding {
        Some("gb18030")
    } else if encoding == NSGBKStringEncoding || encoding == NSGB2312StringEncoding || encoding
        == NSEUCCNStringEncoding || encoding == NSDOSChineseSimplifStringEncoding {
        Some("gbk")
    } else if encoding == NSBig5StringEncoding {
        Some("big5")
    } else if encoding == NSEUCKRStringEncoding {
        Some("euc-kr")
    } else {
        None
    }
}

/// So many bytes can be converted: the conversions that are made elsewhere have a limit.
pub open spec fn size_fits(n: int, encoding: u32) -> bool {
    legacy_label(encoding) is Some ==> n <= usize::MAX / 16
}

/// The labels that are used here.
pub open spec fn known_label(label: Seq<char>) -> bool {
    exists|encoding: u32| #[trigger] legacy_label(encoding) == Some(label)
}

/// What the encoding with a label makes of some bytes: the text, and whether
/// some of the bytes were malformed.
pub uninterp spec fn legacy_decoded(label: Seq<char>, bytes: Seq<u8>) -> (Seq<char>, bool);

/// What the encoding with a label makes of a text: the bytes, and whether some
/// of the characters could not be mapped.
pub uninterp spec fn legacy_encoded(label: Seq<char>, chars: Seq<char>) -> (Seq<u8>, bool);

/// `encoding_rs::Encoding::decode_without_bom_handling` of the encoding that
/// `encoding_rs::Encoding::for_label` finds. There is an encoding for each of
/// the labels used here; the text depends on the label and the bytes alone; and
/// bytes that are all ASCII stand for themselves, but in ISO-2022-JP, which has
/// escape sequences. The bound on the length keeps the size of the internal
/// buffer from overflowing.
#[verifier::external_body]
fn decode_legacy(label: &str, bytes: &[u8]) -> (decoded: Option<(String, bool)>)
    requires
        bytes@.len() <= usize::MAX / 16,
    ensures
        known_label(label@) ==> decoded is Some,
        decoded matches Some(d) ==> (d.0@, d.1) == legacy_decoded(label@, bytes@),
        decoded matches Some(d) ==> (label@ != "iso-2022-jp"@ && known_label(label@) && (forall|
            i: int,
        |
            0 <= i < bytes@.len() ==> #[trigger] bytes@[i] < 128) ==> d.0@ == latin1_chars(bytes@)
            && !d.1),
{
    let encoding = encoding_rs::Encoding::for_label(label.as_bytes())?;
    let (text, malformed) = encoding.decode_without_bom_handling(bytes);
    Some((text.into_owned(), malformed))
}

/// `encoding_rs::Encoding::encode` of the encoding that
/// `encoding_rs::Encoding::for_label` finds. There is an encoding for each of
/// the labels used here; the bytes depend on the label and the text alone; and
/// a text that is all ASCII stands for itself, but in ISO-2022-JP. The bound on
/// the length keeps the size of the internal buffer from overflowing.
#[verifier::external_body]
fn encode_legacy(label: &str, text: &str) -> (encoded: Option<(Vec<u8>, bool)>)
    requires
        utf8::encode_utf8(text@).len() <= usize::MAX / 16,
    ensures
        known_label(label@) ==> encoded is Some,
        encoded matches Some(e) ==> (e.0@, e.1) == legacy_encoded(label@, text@),
        encoded matches Some(e) ==> (label@ != "iso-2022-jp"@ && known_label(label@)
            && utf8::is_ascii_chars(text@) ==> e.0@ == ascii_bytes(text@) && !e.1),
{
    let encoding = encoding_rs::Encoding::for_label(label.as_bytes())?;
    let (bytes, _, unmappable) = encoding.encode(text);
    Some((bytes.into_owned(), unmappable))
}

/// `String::from_utf8`: the text of bytes that are well-formed UTF-8; for other
/// bytes the length of the longest prefix that is (`Utf8Error::valid_up_to`).
#[verifier::external_body]
pub(crate) fn utf8_text(bytes: Vec<u8>) -> (text: Result<String, usize>)
    ensures
        match text {
            Ok(s) => utf8::valid_utf8(bytes@) && s@ == utf8::decode_utf8(bytes@),
            Err(n) => {
                &&& !utf8::valid_utf8(bytes@)
                &&& n <= bytes@.len()
                &&& utf8::valid_utf8(bytes@.take(n as int))
                &&& forall|m: int|
                    n < m <= bytes@.len() ==> !utf8::valid_utf8(#[trigger] bytes@.take(m))
            },
        },
{
    String::from_utf8(bytes).map_err(|e| e.utf8_error().valid_up_to())
}

/// The characters whose codes are the bytes.
pub open spec fn latin1_chars(bytes: Seq<u8>) -> Seq<char> {
    Seq::new(bytes.len(), |i: int| bytes[i] as char)
}

/// The bytes that are the codes of the characters.
pub open spec fn ascii_bytes(chars: Seq<char>) -> Seq<u8> {
    Seq::new(chars.len(), |i: int| (chars[i] as u32) as u8)
}

pub fn latin1_to_string(bytes: &[u8]) -> (text: String)
    ensures
        text@ == latin1_chars(bytes@),
{
    let mut out = String::new();
    let mut i: usize = 0;
    while i < bytes.len()
        invariant
            i <= bytes@.len(),
            out@ == latin1_chars(bytes@.take(i as int)),
        decreases bytes@.len() - i,
    {
        out.push(bytes[i] as char);
        i = i + 1;
        assert(out@ =~= latin1_chars(bytes@.take(i as int)));
    }
    assert(bytes@.take(i as int) =~= bytes@);
    out
}

/// The text of the longest prefix that is well-formed UTF-8.
pub open spec fn utf8_prefix_text(bytes: Seq<u8>, text: Seq<char>) -> bool {
    exists|n: int|
        0 <= n <= bytes.len() && utf8::valid_utf8(#[trigger] bytes.take(n)) && text
            == utf8::decode_utf8(bytes.take(n)) && forall|m: int|
            n < m <= bytes.len() ==> !utf8::valid_utf8(#[trigger] bytes.take(m))
}

/// The longest prefix of the bytes that is well-formed UTF-8, as a text.
pub fn decode_utf8_lenient(bytes: &[u8]) -> (text: String)
    ensures
        utf8_prefix_text(bytes@, text@),
{
    let all = bytes_between(bytes, 0, bytes.len());
    assert(all@ =~= bytes@);
    assert(bytes@.take(bytes@.len() as int) =~= bytes@);
    match utf8_text(all) {
        Ok(text) => text,
        Err(n) => {
            let prefix = bytes_between(bytes, 0, n);
            assert(prefix@ =~= bytes@.take(n as int));
            match utf8_text(prefix) {
                Ok(text) => text,
                Err(_) => String::new(),
            }
        },
    }
}

/// The bytes from `from` to before `to`.
pub fn bytes_between(bytes: &[u8], from: usize, to: usize) -> (part: Vec<u8>)
    requires
        from <= to <= bytes@.len(),
    ensures
        part@ == bytes@.subrange(from as int, to as int),
{
    let mut out: Vec<u8> = Vec::new();
    let mut i: usize = from;
    while i < to
        invariant
            from <= i <= to <= bytes@.len(),
            out@ == bytes@.subrange(from as int, i as int),
        decreases to - i,
    {
        out.push(bytes[i]);
        i = i + 1;
        assert(out@ =~= bytes@.subrange(from as int, i as int));
    }
    out
}

/// The bytes without an incomplete last unit of `size` bytes.
pub open spec fn whole_units(bytes: Seq<u8>, size: int) -> Seq<u8> {
    bytes.take(bytes.len() - bytes.len() as int % size)
}

/// Whether UTF-16 bytes are big-endian, and where their contents start. A byte
/// order mark counts only where the encoding leaves the order open.
pub open spec fn utf16_layout(bytes: Seq<u8>, encoding: u32) -> (bool, int) {
    if encoding == NSUTF16BigEndianStringEncoding {
        (true, 0)
    } else if encoding == NSUTF16LittleEndianStringEncoding {
        (false, 0)
    } else if bytes.len() >= 2 && bytes[0] == 0xfe && bytes[1] == 0xff {
        (true, 2)
    } else if bytes.len() >= 2 && bytes[0] == 0xff && bytes[1] == 0xfe {
        (false, 2)
    } else {
        (false, 0)
    }
}

pub open spec fn utf16_unit(bytes: Seq<u8>, at: int, big: bool) -> u16 {
    if big {
        (256 * bytes[at] + bytes[at + 1]) as u16
    } else {
        (bytes[at] + 256 * bytes[at + 1]) as u16
    }
}

pub open spec fn utf16_units(bytes: Seq<u8>, encoding: u32) -> Seq<u16> {
    let data = whole_units(bytes, 2);
    let (big, start) = utf16_layout(data, encoding);
    Seq::new(((data.len() - start) / 2) as nat, |i: int| utf16_unit(data, start + 2 * i, big))
}

pub open spec fn utf32_layout(bytes: Seq<u8>, encoding: u32) -> (bool, int) {
    if encoding == NSUTF32BigEndianStringEncoding {
        (true, 0)
    } else if encoding == NSUTF32LittleEndianStringEncoding {
        (false, 0)
    } else if bytes.len() >= 4 && bytes[0] == 0 && bytes[1] == 0 && bytes[2] == 0xfe && bytes[3]
        == 0xff {
        (true, 4)
    } else if bytes.len() >= 4 && bytes[0] == 0xff && bytes[1] == 0xfe && bytes[2] == 0 && bytes[3]
        == 0 {
        (false, 4)
    } else {
        (false, 0)
    }
}

pub open spec fn utf32_code(bytes: Seq<u8>, at: int, big: bool) -> u32 {
    if big {
        (0x100_0000 * bytes[at] + 0x1_0000 * bytes[at + 1] + 256 * bytes[at + 2] + bytes[at
            + 3]) as u32
    } else {
        (bytes[at] + 256 * bytes[at + 1] + 0x1_0000 * bytes[at + 2] + 0x100_0000 * bytes[at
            + 3]) as u32
    }
}

/// The character with a code; a code without a character becomes U+FFFD.
pub open spec fn char_or_replacement(code: u32) -> char {
    if code_units::is_scalar_value(code) {
        code as char
    } else {
        '\u{fffd}'
    }
}

pub open spec fn utf32_chars(bytes: Seq<u8>, encoding: u32) -> Seq<char> {
    let data = whole_units(bytes, 4);
    let (big, start) = utf32_layout(data, encoding);
    Seq::new(
        ((data.len() - start) / 4) as nat,
        |i: int| char_or_replacement(utf32_code(data, start + 4 * i, big)),
    )
}

/// What bytes stand for in an encoding; `None` if the encoding is not known.
pub open spec fn is_decoded(bytes: Seq<u8>, encoding: u32, r: Option<StringView>) -> bool {
    if bytes.len() == 0 {
        r == Some(StringView::Utf8(Seq::empty()))
    } else if ascii_like(encoding) || encoding == NSISOLatin1StringEncoding {
        r == Some(StringView::Utf8(latin1_chars(bytes)))
    } else if utf8_like(encoding) {
        r matches Some(StringView::Utf8(text)) && utf8_prefix_text(bytes, text)
    } else if utf16_like(encoding) {
        r == Some(StringView::Utf16(utf16_units(bytes, encoding)))
    } else if utf32_like(encoding) {
        r == Some(StringView::Utf8(utf32_chars(bytes, encoding)))
    } else {
        match legacy_label(encoding) {
            Some(label) => r == Some(StringView::Utf8(legacy_decoded(label, bytes).0)),
            None => r is None,
        }
    }
}

fn decode_utf16(bytes: &[u8], encoding: u32) -> (units: Vec<u16>)
    ensures
        units@ == utf16_units(bytes@, encoding),
{
    let len: usize = bytes.len() - bytes.len() % 2;
    let ghost data = whole_units(bytes@, 2);
    let mut start: usize = 0;
    let big: bool = if encoding == NSUTF16BigEndianStringEncoding {
        true
    } else if encoding == NSUTF16LittleEndianStringEncoding {
        false
    } else if len >= 2 && bytes[0] == 0xfe && bytes[1] == 0xff {
        start = 2;
        true
    } else if len >= 2 && bytes[0] == 0xff && bytes[1] == 0xfe {
        start = 2;
        false
    } else {
        false
    };
    assert((big, start as int) == utf16_layout(data, encoding));
    let n: usize = (len - start) / 2;
    let mut out: Vec<u16> = Vec::new();
    let mut i: usize = 0;
    while i < n
        invariant
            i <= n,
            start + 2 * n <= len <= bytes@.len(),
            len <= bytes.len(),
            data == bytes@.take(len as int),
            out@ == Seq::new(i as nat, |k: int| utf16_unit(data, start + 2 * k, big)),
        decreases n - i,
    {
        let at: usize = start + 2 * i;
        let first: u16 = bytes[at] as u16;
        let second: u16 = bytes[at + 1] as u16;
        out.push(
            if big {
                256 * first + second
            } else {
                first + 256 * second
            },
        );
        i = i + 1;
        assert(out@ =~= Seq::new(i as nat, |k: int| utf16_unit(data, start + 2 * k, big)));
    }
    assert(out@ =~= utf16_units(bytes@, encoding));
    out
}

fn decode_utf32(bytes: &[u8], encoding: u32) -> (text: String)
    ensures
        text@ == utf32_chars(bytes@, encoding),
{
    let len: usize = bytes.len() - bytes.len() % 4;
    let ghost data = whole_units(bytes@, 4);
    let mut start: usize = 0;
    let big: bool = if encoding == NSUTF32BigEndianStringEncoding {
        true
    } else if encoding == NSUTF32LittleEndianStringEncoding {
        false
    } else if len >= 4 && bytes[0] == 0 && bytes[1] == 0 && bytes[2] == 0xfe && bytes[3] == 0xff {
        start = 4;
        true
    } else if len >= 4 && bytes[0] == 0xff && bytes[1] == 0xfe && bytes[2] == 0 && bytes[3] == 0 {
        start = 4;
        false
    } else {
        false
    };
    assert((big, start as int) == utf32_layout(data, encoding));
    let n: usize = (len - start) / 4;
    let mut out = String::new();
    let mut i: usize = 0;
    while i < n
        invariant
            i <= n,
            start + 4 * n <= len <= bytes@.len(),
            len <= bytes.len(),
            data == bytes@.take(len as int),
            out@ == Seq::new(
                i as nat,
                |k: int| char_or_replacement(utf32_code(data, start + 4 * k, big)),
            ),
        decreases n - i,
    {
        let at: usize = start + 4 * i;
        let a: u32 = bytes[at] as u32;
        let b: u32 = bytes[at + 1] as u32;
        let c: u32 = bytes[at + 2] as u32;
        let d: u32 = bytes[at + 3] as u32;
        let code: u32 = if big {
            0x100_0000 * a + 0x1_0000 * b + 256 * c + d
        } else {
            a + 256 * b + 0x1_0000 * c + 0x100_0000 * d
        };
        assert(code == utf32_code(data, start + 4 * i, big));
        let decoded: char = match char::from_u32(code) {
            Some(found) => {
                proof {
                    utf8::char_u32_cast(found, code);
                }
                found
            },
            None => '\u{fffd}',
        };
        out.push(decoded);
        i = i + 1;
        assert(out@ =~= Seq::new(
            i as nat,
            |k: int| char_or_replacement(utf32_code(data, start + 4 * k, big)),
        ));
    }
    assert(out@ =~= utf32_chars(bytes@, encoding));
    out
}

impl StringHostObject {
    /// Decodes bytes. Known encodings never fail: malformed parts are replaced
    /// or cut off.
    pub fn decode(bytes: &[u8], encoding: u32) -> (decoded: Option<StringHostObject>)
        requires
            size_fits(bytes@.len() as int, encoding),
        ensures
            is_decoded(
                bytes@,
                encoding,
                match decoded {
                    Some(s) => Some(s@),
                    None => None,
                },
            ),
    {
        if bytes.len() == 0 {
            return Some(StringHostObject::Utf8(String::new()));
        }
        if encoding == NSASCIIStringEncoding || encoding == NSNonLossyASCIIStringEncoding
            || encoding == NSNEXTSTEPStringEncoding || encoding == NSISOLatin1StringEncoding {
            Some(StringHostObject::Utf8(latin1_to_string(bytes)))
        } else if encoding == NSUTF8StringEncoding || encoding == 0 {
            Some(StringHostObject::Utf8(decode_utf8_lenient(bytes)))
        } else if encoding == NSUTF16StringEncoding || encoding == NSUTF16BigEndianStringEncoding
            || encoding == NSUTF16LittleEndianStringEncoding {
            Some(StringHostObject::Utf16(decode_utf16(bytes, encoding)))
        } else if encoding == NSUTF32StringEncoding || encoding == NSUTF32BigEndianStringEncoding
            || encoding == NSUTF32LittleEndianStringEncoding {
            Some(StringHostObject::Utf8(decode_utf32(bytes, encoding)))
        } else {
            match legacy_encoding_for(encoding) {
                Some(label) => {
                    assert(known_label(label@));
                    match decode_legacy(label, bytes) {
                        Some((text, _)) => Some(StringHostObject::Utf8(text)),
                        None => None,
                    }
                },
                None => None,
            }
        }
    }
}

/// The UTF-16 code units of a character.
pub open spec fn char_units(c: char) -> Seq<u16> {
    let code = (c as u32) as int;
    if code < 0x1_0000 {
        seq![code as u16]
    } else {
        seq![
            (0xd800 + (code - 0x1_0000) / 0x400) as u16,
            (0xdc00 + (code - 0x1_0000) % 0x400) as u16,
        ]
    }
}

/// The UTF-16 code units of a text.
pub open spec fn text_units(chars: Seq<char>) -> Seq<u16>
    decreases chars.len(),
{
    if chars.len() == 0 {
        Seq::empty()
    } else {
        text_units(chars.drop_last()) + char_units(chars.last())
    }
}

/// The UTF-16 code units of a text (`str::encode_utf16`).
pub fn encode_utf16(text: &str) -> (units: Vec<u16>)
    ensures
        units@ == text_units(text@),
{
    let chars = chars_of(text);
    let mut out: Vec<u16> = Vec::new();
    let mut i: usize = 0;
    while i < chars.len()
        invariant
            i <= chars@.len(),
            out@ == text_units(chars@.take(i as int)),
        decreases chars@.len() - i,
    {
        let ghost before = out@;
        let code: u32 = chars[i] as u32;
        proof {
            utf8::char_is_scalar(chars@[i as int]);
            assert(code <= 0x10_ffff);
        }
        if code < 0x1_0000 {
            out.push(code as u16);
        } else {
            let rest: u32 = code - 0x1_0000;
            out.push((0xd800 + rest / 0x400) as u16);
            out.push((0xdc00 + rest % 0x400) as u16);
        }
        assert(out@ =~= before + char_units(chars@[i as int]));
        assert(chars@.take(i + 1).drop_last() =~= chars@.take(i as int));
        i = i + 1;
    }
    assert(chars@.take(i as int) =~= chars@);
    out
}

pub open spec fn high_surrogate(u: u16) -> bool {
    0xd800 <= u <= 0xdbff
}

pub open spec fn low_surrogate(u: u16) -> bool {
    0xdc00 <= u <= 0xdfff
}

/// The character of a surrogate pair.
pub open spec fn pair_char(high: u16, low: u16) -> char {
    (0x1_0000 + (high - 0xd800) * 0x400 + (low - 0xdc00)) as char
}

/// The text of code units from `i` on; each unpaired surrogate becomes U+FFFD.
pub open spec fn units_text(units: Seq<u16>, i: int) -> Seq<char>
    decreases units.len() - i,
{
    if i < 0 || i >= units.len() {
        Seq::empty()
    } else if !code_units::surrogate(units[i]) {
        seq![units[i] as char] + units_text(units, i + 1)
    } else if high_surrogate(units[i]) && i + 1 < units.len() && low_surrogate(units[i + 1]) {
        seq![pair_char(units[i], units[i + 1])] + units_text(units, i + 2)
    } else {
        seq!['\u{fffd}'] + units_text(units, i + 1)
    }
}

/// Whether all surrogates from `i` on are paired.
pub open spec fn well_paired(units: Seq<u16>, i: int) -> bool
    decreases units.len() - i,
{
    if i < 0 || i >= units.len() {
        true
    } else if !code_units::surrogate(units[i]) {
        well_paired(units, i + 1)
    } else if high_surrogate(units[i]) && i + 1 < units.len() && low_surrogate(units[i + 1]) {
        well_paired(units, i + 2)
    } else {
        false
    }
}

/// The text of code units, with unpaired surrogates replaced, and whether there
/// were none.
pub fn decode_units(units: &Vec<u16>) -> (r: (String, bool))
    ensures
        r.0@ == units_text(units@, 0),
        r.1 == well_paired(units@, 0),
{
    let mut out = String::new();
    let mut paired: bool = true;
    let mut i: usize = 0;
    assert(out@ + units_text(units@, 0) =~= units_text(units@, 0));
    while i < units.len()
        invariant
            i <= units@.len(),
            out@ + units_text(units@, i as int) == units_text(units@, 0),
            (paired && well_paired(units@, i as int)) == well_paired(units@, 0),
        decreases units@.len() - i,
    {
        let ghost before = out@;
        let ghost tail = units_text(units@, i as int);
        let u: u16 = units[i];
        let mut step: usize = 1;
        let c: char = if u < 0xd800 || u > 0xdfff {
            unit_to_char(u)
        } else if u <= 0xdbff && i + 1 < units.len() && 0xdc00 <= units[i + 1] && units[i + 1]
            <= 0xdfff {
            step = 2;
            pair_to_char(u, units[i + 1])
        } else {
            paired = false;
            '\u{fffd}'
        };
        out.push(c);
        i = i + step;
        assert(before + (seq![c] + units_text(units@, i as int)) =~= out@ + units_text(
            units@,
            i as int,
        ));
    }
    assert(out@ + Seq::<char>::empty() =~= out@);
    (out, paired)
}

fn unit_to_char(u: u16) -> (c: char)
    requires
        !code_units::surrogate(u),
    ensures
        c == u as char,
{
    match char::from_u32(u as u32) {
        Some(c) => {
            proof {
                utf8::char_u32_cast(c, u as u32);
            }
            c
        },
        None => '\u{fffd}',
    }
}

fn pair_to_char(high: u16, low: u16) -> (c: char)
    requires
        high_surrogate(high),
        low_surrogate(low),
    ensures
        c == pair_char(high, low),
{
    let code: u32 = 0x1_0000 + (high as u32 - 0xd800) * 0x400 + (low as u32 - 0xdc00);
    match char::from_u32(code) {
        Some(c) => {
            proof {
                utf8::char_u32_cast(c, code);
            }
            c
        },
        None => '\u{fffd}',
    }
}

/// A text that is encoded in UTF-16 is decoded to the same text, and all of its
/// surrogates are paired.
pub proof fn law_utf16_round_trip(chars: Seq<char>)
    ensures
        units_text(text_units(chars), 0) == chars,
        well_paired(text_units(chars), 0),
{
    lemma_utf16_round_trip(chars, Seq::empty());
    assert(text_units(chars) + Seq::<u16>::empty() =~= text_units(chars));
    assert(chars + units_text(Seq::<u16>::empty(), 0) =~= chars);
}

/// Units behind an encoded text are read on their own.
proof fn lemma_utf16_round_trip(chars: Seq<char>, rest: Seq<u16>)
    ensures
        units_text(text_units(chars) + rest, 0) == chars + units_text(rest, 0),
        well_paired(text_units(chars) + rest, 0) == well_paired(rest, 0),
    decreases chars.len(),
{
    if chars.len() == 0 {
        assert(text_units(chars) + rest =~= rest);
        assert(chars + units_text(rest, 0) =~= units_text(rest, 0));
    } else {
        let last = chars.last();
        let more = char_units(last) + rest;
        lemma_utf16_round_trip(chars.drop_last(), more);
        assert(text_units(chars) + rest =~= text_units(chars.drop_last()) + more);
        lemma_units_shift(char_units(last), rest, 0);
        let n = char_units(last).len() as int;
        utf8::char_is_scalar(last);
        assert(last as u32 <= 0x10_ffff && !(0xd800 <= last as u32 <= 0xdfff));
        assert(well_paired(more, 0) == well_paired(more, n));
        assert(units_text(more, 0) =~= seq![last] + units_text(more, n)) by {
            if (last as u32) < 0x1_0000 {
                assert(more[0] == (last as u32) as u16);
                assert(more[0] as char == last) by {
                    utf8::char_u32_cast(last, last as u32);
                }
            } else {
                let code = (last as u32) as int;
                assert(pair_char(more[0], more[1]) == last) by {
                    assert(0x1_0000 + (more[0] - 0xd800) * 0x400 + (more[1] - 0xdc00) == code);
                    utf8::char_u32_cast(last, last as u32);
                }
            }
        }
        assert(chars =~= chars.drop_last() + seq![last]);
        assert(chars.drop_last() + (seq![last] + units_text(rest, 0)) =~= chars + units_text(
            rest,
            0,
        ));
    }
}

proof fn lemma_units_shift(front: Seq<u16>, rest: Seq<u16>, i: int)
    requires
        0 <= i <= rest.len(),
    ensures
        units_text(front + rest, front.len() + i) == units_text(rest, i),
        well_paired(front + rest, front.len() + i) == well_paired(rest, i),
    decreases rest.len() - i,
{
    let all = front + rest;
    let n = front.len() as int;
    if i < rest.len() {
        assert(all[n + i] == rest[i]);
        if !code_units::surrogate(rest[i]) {
            lemma_units_shift(front, rest, i + 1);
        } else if high_surrogate(rest[i]) && i + 1 < rest.len() && low_surrogate(rest[i + 1]) {
            assert(all[n + i + 1] == rest[i + 1]);
            lemma_units_shift(front, rest, i + 2);
        } else {
            if i + 1 < rest.len() {
                assert(all[n + i + 1] == rest[i + 1]);
            }
            lemma_units_shift(front, rest, i + 1);
        }
    }
}

/// The character codes as bytes, with `?` for codes above `limit`.
pub open spec fn codes_or_mark(chars: Seq<char>, limit: int) -> Seq<u8> {
    Seq::new(
        chars.len(),
        |i: int|
            if chars[i] as u32 <= limit {
                (chars[i] as u32) as u8
            } else {
                63u8
            },
    )
}

pub open spec fn codes_fit(chars: Seq<char>, limit: int) -> bool {
    forall|i: int| 0 <= i < chars.len() ==> #[trigger] chars[i] as u32 <= limit
}

pub open spec fn unit_bytes(u: u16, big: bool) -> Seq<u8> {
    if big {
        seq![(u / 256) as u8, (u % 256) as u8]
    } else {
        seq![(u % 256) as u8, (u / 256) as u8]
    }
}

pub open spec fn all_unit_bytes(units: Seq<u16>, big: bool) -> Seq<u8>
    decreases units.len(),
{
    if units.len() == 0 {
        Seq::empty()
    } else {
        all_unit_bytes(units.drop_last(), big) + unit_bytes(units.last(), big)
    }
}

pub open spec fn code_bytes(code: u32, big: bool) -> Seq<u8> {
    let a = (code % 256) as u8;
    let b = (code / 256 % 256) as u8;
    let c = (code / 0x1_0000 % 256) as u8;
    let d = (code / 0x100_0000) as u8;
    if big {
        seq![d, c, b, a]
    } else {
        seq![a, b, c, d]
    }
}

pub open spec fn all_code_bytes(chars: Seq<char>, big: bool) -> Seq<u8>
    decreases chars.len(),
{
    if chars.len() == 0 {
        Seq::empty()
    } else {
        all_code_bytes(chars.drop_last(), big) + code_bytes(chars.last() as u32, big)
    }
}

/// The bytes of a text in a legacy encoding, character by character, with `?`
/// for those that cannot be mapped.
pub open spec fn legacy_or_mark(label: Seq<char>, chars: Seq<char>) -> Seq<u8>
    decreases chars.len(),
{
    if chars.len() == 0 {
        Seq::empty()
    } else {
        let piece = legacy_encoded(label, seq![chars.last()]);
        legacy_or_mark(label, chars.drop_last()) + if piece.1 {
            seq![63u8]
        } else {
            piece.0
        }
    }
}

/// The bytes of a text in an encoding, without a byte order mark. There are
/// none if the encoding is not known, or if it lacks a character of the text
/// and the conversion may not lose anything.
pub open spec fn encoded(chars: Seq<char>, encoding: u32, lossy: bool) -> Option<Seq<u8>> {
    if utf8_like(encoding) {
        Some(utf8::encode_utf8(chars))
    } else if ascii_like(encoding) {
        if lossy || codes_fit(chars, 127) {
            Some(codes_or_mark(chars, 127))
        } else {
            None
        }
    } else if encoding == NSISOLatin1StringEncoding {
        if lossy || codes_fit(chars, 255) {
            Some(codes_or_mark(chars, 255))
        } else {
            None
        }
    } else if utf16_like(encoding) {
        Some(
            all_unit_bytes(text_units(chars), encoding == NSUTF16BigEndianStringEncoding),
        )
    } else if utf32_like(encoding) {
        Some(all_code_bytes(chars, encoding == NSUTF32BigEndianStringEncoding))
    } else {
        match legacy_label(encoding) {
            None => None,
            Some(label) => {
                let (bytes, unmappable) = legacy_encoded(label, chars);
                if !unmappable {
                    Some(bytes)
                } else if lossy {
                    Some(legacy_or_mark(label, chars))
                } else {
                    None
                }
            },
        }
    }
}

fn encode_codes(chars: &Vec<char>, limit: u32, lossy: bool) -> (bytes: Option<Vec<u8>>)
    requires
        limit <= 255,
    ensures
        match bytes {
            Some(b) => (lossy || codes_fit(chars@, limit as int)) && b@ == codes_or_mark(
                chars@,
                limit as int,
            ),
            None => !lossy && !codes_fit(chars@, limit as int),
        },
{
    let mut out: Vec<u8> = Vec::new();
    let mut i: usize = 0;
    while i < chars.len()
        invariant
            i <= chars@.len(),
            limit <= 255,
            out@ == codes_or_mark(chars@.take(i as int), limit as int),
            lossy || codes_fit(chars@.take(i as int), limit as int),
        decreases chars@.len() - i,
    {
        let code: u32 = chars[i] as u32;
        if code <= limit {
            out.push(code as u8);
        } else if lossy {
            out.push(63);
        } else {
            assert(!codes_fit(chars@, limit as int)) by {
                assert(chars@[i as int] as u32 > limit);
            }
            return None;
        }
        i = i + 1;
        assert(out@ =~= codes_or_mark(chars@.take(i as int), limit as int));
    }
    assert(chars@.take(i as int) =~= chars@);
    Some(out)
}

fn encode_units(units: &Vec<u16>, big: bool) -> (bytes: Vec<u8>)
    ensures
        bytes@ == all_unit_bytes(units@, big),
{
    let mut out: Vec<u8> = Vec::new();
    let mut i: usize = 0;
    while i < units.len()
        invariant
            i <= units@.len(),
            out@ == all_unit_bytes(units@.take(i as int), big),
        decreases units@.len() - i,
    {
        let ghost before = out@;
        let u: u16 = units[i];
        if big {
            out.push((u / 256) as u8);
            out.push((u % 256) as u8);
        } else {
            out.push((u % 256) as u8);
            out.push((u / 256) as u8);
        }
        assert(out@ =~= before + unit_bytes(u, big));
        assert(units@.take(i + 1).drop_last() =~= units@.take(i as int));
        i = i + 1;
    }
    assert(units@.take(i as int) =~= units@);
    out
}

fn encode_utf32(chars: &Vec<char>, big: bool) -> (bytes: Vec<u8>)
    ensures
        bytes@ == all_code_bytes(chars@, big),
{
    let mut out: Vec<u8> = Vec::new();
    let mut i: usize = 0;
    while i < chars.len()
        invariant
            i <= chars@.len(),
            out@ == all_code_bytes(chars@.take(i as int), big),
        decreases chars@.len() - i,
    {
        let ghost before = out@;
        let code: u32 = chars[i] as u32;
        let a: u8 = (code % 256) as u8;
        let b: u8 = (code / 256 % 256) as u8;
        let c: u8 = (code / 0x1_0000 % 256) as u8;
        let d: u8 = (code / 0x100_0000) as u8;
        if big {
            out.push(d);
            out.push(c);
            out.push(b);
            out.push(a);
        } else {
            out.push(a);
            out.push(b);
            out.push(c);
            out.push(d);
        }
        assert(out@ =~= before + code_bytes(code, big));
        assert(chars@.take(i + 1).drop_last() =~= chars@.take(i as int));
        i = i + 1;
    }
    assert(chars@.take(i as int) =~= chars@);
    out
}

/// Whether two lists of bytes are the same.
pub fn same_bytes(a: &[u8], b: &[u8]) -> (same: bool)
    ensures
        same == (a@ == b@),
{
    if a.len() != b.len() {
        return false;
    }
    let mut i: usize = 0;
    while i < a.len()
        invariant
            i <= a@.len(),
            a@.len() == b@.len(),
            forall|j: int| 0 <= j < i ==> a@[j] == #[trigger] b@[j],
        decreases a@.len() - i,
    {
        if a[i] != b[i] {
            return false;
        }
        i = i + 1;
    }
    assert(a@ =~= b@);
    true
}

/// Adds bytes at the end of a list.
pub fn push_bytes(out: &mut Vec<u8>, more: &Vec<u8>)
    ensures
        final(out)@ == old(out)@ + more@,
{
    let mut i: usize = 0;
    while i < more.len()
        invariant
            i <= more@.len(),
            out@ == old(out)@ + more@.take(i as int),
        decreases more@.len() - i,
    {
        out.push(more[i]);
        i = i + 1;
        assert(out@ =~= old(out)@ + more@.take(i as int));
    }
    assert(more@.take(i as int) =~= more@);
}

proof fn lemma_one_char_len(c: char)
    ensures
        utf8::encode_utf8(seq![c]).len() <= 4,
{
    reveal_with_fuel(utf8::encode_utf8, 2);
    assert(seq![c].drop_first() =~= Seq::<char>::empty());
}

/// Encodes a text that is not all mappable, with `?` for what is not.
fn encode_legacy_lossy(label: &'static str, chars: &Vec<char>) -> (bytes: Vec<u8>)
    requires
        known_label(label@),
    ensures
        bytes@ == legacy_or_mark(label@, chars@),
{
    let mut out: Vec<u8> = Vec::new();
    let mut i: usize = 0;
    while i < chars.len()
        invariant
            i <= chars@.len(),
            known_label(label@),
            out@ == legacy_or_mark(label@, chars@.take(i as int)),
        decreases chars@.len() - i,
    {
        let ghost before = out@;
        let mut one = String::new();
        one.push(chars[i]);
        proof {
            assert(one@ =~= seq![chars@[i as int]]);
            lemma_one_char_len(chars@[i as int]);
            assert(4 <= usize::MAX / 16);
            assert(chars@.take(i + 1).drop_last() =~= chars@.take(i as int));
            assert(chars@.take(i + 1).last() == chars@[i as int]);
        }
        match encode_legacy(label, one.as_str()) {
            Some((piece, unmappable)) => {
                if unmappable {
                    out.push(63);
                    assert(out@ =~= before + seq![63u8]);
                } else {
                    push_bytes(&mut out, &piece);
                }
            },
            None => {},
        }
        i = i + 1;
    }
    assert(chars@.take(i as int) =~= chars@);
    out
}

/// Encodes a text, without a byte order mark and a final NUL.
pub fn encode_str(string: &str, encoding: u32, lossy: bool) -> (bytes: Option<Vec<u8>>)
    requires
        size_fits(utf8::encode_utf8(string@).len() as int, encoding),
    ensures
        match bytes {
            Some(b) => encoded(string@, encoding, lossy) == Some(b@),
            None => encoded(string@, encoding, lossy) is None,
        },
{
    if encoding == NSUTF8StringEncoding || encoding == 0 {
        let all = string.as_bytes();
        let bytes = bytes_between(all, 0, all.len());
        assert(bytes@ =~= all@);
        return Some(bytes);
    }
    let chars = chars_of(string);
    if encoding == NSASCIIStringEncoding || encoding == NSNonLossyASCIIStringEncoding || encoding
        == NSNEXTSTEPStringEncoding {
        encode_codes(&chars, 127, lossy)
    } else if encoding == NSISOLatin1StringEncoding {
        encode_codes(&chars, 255, lossy)
    } else if encoding == NSUTF16StringEncoding || encoding == NSUTF16LittleEndianStringEncoding {
        Some(encode_units(&encode_utf16(string), false))
    } else if encoding == NSUTF16BigEndianStringEncoding {
        Some(encode_units(&encode_utf16(string), true))
    } else if encoding == NSUTF32StringEncoding || encoding == NSUTF32LittleEndianStringEncoding {
        Some(encode_utf32(&chars, false))
    } else if encoding == NSUTF32BigEndianStringEncoding {
        Some(encode_utf32(&chars, true))
    } else {
        match legacy_encoding_for(encoding) {
            None => None,
            Some(label) => {
                assert(known_label(label@));
                match encode_legacy(label, string) {
                    Some((bytes, unmappable)) => {
                        if !unmappable {
                            Some(bytes)
                        } else if lossy {
                            Some(encode_legacy_lossy(label, &chars))
                        } else {
                            None
                        }
                    },
                    None => None,
                }
            },
        }
    }
}

/// The byte order mark that data in an encoding starts with.
pub open spec fn data_mark(encoding: u32) -> Seq<u8> {
    if encoding == NSUTF16StringEncoding {
        seq![0xffu8, 0xfe]
    } else if encoding == NSUTF32StringEncoding {
        seq![0xffu8, 0xfe, 0, 0]
    } else {
        Seq::empty()
    }
}

/// Encodes a text for a data object or a file: where the encoding leaves the
/// byte order open, a byte order mark comes first.
pub fn encode_for_data(string: &str, encoding: u32, lossy: bool) -> (bytes: Option<Vec<u8>>)
    requires
        size_fits(utf8::encode_utf8(string@).len() as int, encoding),
    ensures
        match bytes {
            Some(b) => encoded(string@, encoding, lossy) matches Some(e) && b@ == data_mark(
                encoding,
            ) + e,
            None => encoded(string@, encoding, lossy) is None,
        },
{
    match encode_str(string, encoding, lossy) {
        None => None,
        Some(bytes) => {
            let mut out: Vec<u8> = Vec::new();
            if encoding == NSUTF16StringEncoding {
                out.push(0xff);
                out.push(0xfe);
            } else if encoding == NSUTF32StringEncoding {
                out.push(0xff);
                out.push(0xfe);
                out.push(0);
                out.push(0);
            }
            assert(out@ =~= data_mark(encoding));
            push_bytes(&mut out, &bytes);
            Some(out)
        },
    }
}

pub open spec fn terminator_size(encoding: u32) -> int {
    if utf16_like(encoding) {
        2
    } else if utf32_like(encoding) {
        4
    } else {
        1
    }
}

/// How many bytes the final NUL takes.
pub fn nul_terminator_size(encoding: u32) -> (size: u32)
    ensures
        size == terminator_size(encoding),
{
    if encoding == NSUTF16StringEncoding || encoding == NSUTF16BigEndianStringEncoding || encoding
        == NSUTF16LittleEndianStringEncoding {
        2
    } else if encoding == NSUTF32StringEncoding || encoding == NSUTF32BigEndianStringEncoding
        || encoding == NSUTF32LittleEndianStringEncoding {
        4
    } else {
        1
    }
}

/// The text of a string object; unpaired surrogates become U+FFFD.
pub open spec fn string_text(s: StringView) -> Seq<char> {
    match s {
        StringView::Utf8(chars) => chars,
        StringView::Utf16(units) => units_text(units, 0),
    }
}

/// The code units of a string object.
pub open spec fn string_units(s: StringView) -> Seq<u16> {
    match s {
        StringView::Utf8(chars) => text_units(chars),
        StringView::Utf16(units) => units,
    }
}

/// A text would need an unpaired surrogate.
#[derive(Clone, Copy, Debug, PartialEq, Eq, Structural)]
pub struct UnpairedSurrogate;

impl StringHostObject {
    /// The text of the string, if all of its surrogates are paired.
    pub fn to_utf8(&self) -> (text: Result<String, UnpairedSurrogate>)
        ensures
            match text {
                Ok(s) => s@ == string_text(self@) && (self@ matches StringView::Utf16(units)
                    ==> well_paired(units, 0)),
                Err(_) => self@ matches StringView::Utf16(units) && !well_paired(units, 0),
            },
    {
        match self {
            StringHostObject::Utf8(s) => Ok(s.clone()),
            StringHostObject::Utf16(units) => {
                let (text, paired) = decode_units(units);
                if paired {
                    Ok(text)
                } else {
                    Err(UnpairedSurrogate)
                }
            },
        }
    }

    /// The text of the string, with unpaired surrogates replaced.
    pub fn to_utf8_lossy(&self) -> (text: String)
        ensures
            text@ == string_text(self@),
    {
        match self {
            StringHostObject::Utf8(s) => s.clone(),
            StringHostObject::Utf16(units) => decode_units(units).0,
        }
    }

    /// The UTF-16 code units of the string.
    pub fn code_units(&self) -> (units: Vec<u16>)
        ensures
            units@ == string_units(self@),
    {
        match self {
            StringHostObject::Utf8(s) => encode_utf16(s.as_str()),
            StringHostObject::Utf16(units) => {
                let copy = code_units::slice_units(units.as_slice(), 0, units.len());
                assert(copy@ =~= units@);
                copy
            },
        }
    }

    /// Turns the string into UTF-16, if it is not that already; whether it was
    /// converted.
    pub fn convert_to_utf16_inplace(&mut self) -> (converted: bool)
        ensures
            converted == (old(self)@ is Utf8),
            final(self)@ == StringView::Utf16(string_units(old(self)@)),
    {
        let utf8: bool = match self {
            StringHostObject::Utf8(_) => true,
            StringHostObject::Utf16(_) => false,
        };
        if utf8 {
            let units = self.code_units();
            *self = StringHostObject::Utf16(units);
        }
        utf8
    }
}

/// The units behind a prefix, if the string starts with it.
pub fn strip_prefix(units: &Vec<u16>, prefix: &Vec<u16>, case_insensitive: bool) -> (rest: Option<
    Vec<u16>,
>)
    ensures
        match rest {
            Some(r) => code_units::units_at(units@, prefix@, 0, case_insensitive) && r@
                == units@.skip(prefix@.len() as int),
            None => !code_units::units_at(units@, prefix@, 0, case_insensitive),
        },
{
    if prefix.len() > units.len() {
        return None;
    }
    let mut k: usize = 0;
    while k < prefix.len()
        invariant
            k <= prefix@.len() <= units@.len(),
            forall|j: int|
                0 <= j < k ==> code_units::same_unit(
                    #[trigger] units@[0 + j],
                    prefix@[j],
                    case_insensitive,
                ),
        decreases prefix@.len() - k,
    {
        if !code_units::units_equal(units[k], prefix[k], case_insensitive) {
            assert(!code_units::same_unit(
                units@[0 + k as int],
                prefix@[k as int],
                case_insensitive,
            ));
            return None;
        }
        k = k + 1;
    }
    let rest = code_units::slice_units(units.as_slice(), prefix.len(), units.len());
    assert(rest@ =~= units@.skip(prefix@.len() as int));
    Some(rest)
}

proof fn lemma_codes_round_trip(chars: Seq<char>, limit: int)
    requires
        limit <= 255,
        codes_fit(chars, limit),
    ensures
        latin1_chars(codes_or_mark(chars, limit)) == chars,
{
    let bytes = codes_or_mark(chars, limit);
    assert forall|i: int| 0 <= i < chars.len() implies latin1_chars(bytes)[i] == chars[i] by {
        assert(chars[i] as u32 <= limit);
        utf8::char_u32_cast(chars[i], chars[i] as u32);
    }
    assert(latin1_chars(bytes) =~= chars);
}

/// A text that is encoded in Latin-1 without loss is decoded to the same text.
pub proof fn law_latin1_round_trip(chars: Seq<char>)
    requires
        codes_fit(chars, 255),
    ensures
        encoded(chars, NSISOLatin1StringEncoding, false) == Some(codes_or_mark(chars, 255)),
        latin1_chars(codes_or_mark(chars, 255)) == chars,
{
    lemma_codes_round_trip(chars, 255);
}

/// A text that is encoded in ASCII without loss is decoded to the same text.
pub proof fn law_ascii_round_trip(
    chars: Seq<char>,
    encoding: u32,
    bytes: Seq<u8>,
    decoded: Option<StringView>,
)
    requires
        ascii_like(encoding),
        encoded(chars, encoding, false) == Some(bytes),
        is_decoded(bytes, encoding, decoded),
    ensures
        decoded == Some(StringView::Utf8(chars)),
{
    lemma_codes_round_trip(chars, 127);
    if bytes.len() == 0 {
        assert(chars =~= Seq::empty());
    }
}

/// A text that is encoded in UTF-8 is decoded to the same text.
pub proof fn law_utf8_round_trip(chars: Seq<char>, decoded: Seq<char>)
    requires
        utf8_prefix_text(utf8::encode_utf8(chars), decoded),
    ensures
        decoded == chars,
{
    let bytes = utf8::encode_utf8(chars);
    utf8::encode_utf8_valid_utf8(chars);
    utf8::encode_utf8_decode_utf8(chars);
    assert(bytes.take(bytes.len() as int) =~= bytes);
    let n = choose|n: int|
        0 <= n <= bytes.len() && utf8::valid_utf8(#[trigger] bytes.take(n)) && decoded
            == utf8::decode_utf8(bytes.take(n)) && forall|m: int|
            n < m <= bytes.len() ==> !utf8::valid_utf8(#[trigger] bytes.take(m));
    if n < bytes.len() {
        assert(!utf8::valid_utf8(bytes.take(bytes.len() as int)));
    }
}

proof fn lemma_unit_bytes_at(units: Seq<u16>, big: bool, i: int)
    requires
        0 <= i < units.len(),
    ensures
        all_unit_bytes(units, big).len() == 2 * units.len(),
        all_unit_bytes(units, big)[2 * i] == unit_bytes(units[i], big)[0],
        all_unit_bytes(units, big)[2 * i + 1] == unit_bytes(units[i], big)[1],
    decreases units.len(),
{
    lemma_unit_bytes_len(units.drop_last(), big);
    if i < units.len() - 1 {
        lemma_unit_bytes_at(units.drop_last(), big, i);
    }
}

proof fn lemma_unit_bytes_len(units: Seq<u16>, big: bool)
    ensures
        all_unit_bytes(units, big).len() == 2 * units.len(),
    decreases units.len(),
{
    if units.len() > 0 {
        lemma_unit_bytes_len(units.drop_last(), big);
    }
}

/// A text that is encoded in UTF-16 with a fixed byte order is decoded to the
/// same code units, and so to the same text.
pub proof fn law_utf16_bytes_round_trip(chars: Seq<char>, encoding: u32)
    requires
        encoding == NSUTF16BigEndianStringEncoding || encoding
            == NSUTF16LittleEndianStringEncoding,
    ensures
        ({
            let bytes = encoded(chars, encoding, false).unwrap();
            &&& utf16_units(bytes, encoding) == text_units(chars)
            &&& string_text(StringView::Utf16(utf16_units(bytes, encoding))) == chars
        }),
{
    let big = encoding == NSUTF16BigEndianStringEncoding;
    let units = text_units(chars);
    let bytes = all_unit_bytes(units, big);
    lemma_unit_bytes_len(units, big);
    assert(whole_units(bytes, 2) =~= bytes);
    assert forall|i: int| 0 <= i < units.len() implies utf16_unit(bytes, 2 * i, big)
        == units[i] by {
        lemma_unit_bytes_at(units, big, i);
    }
    assert(utf16_units(bytes, encoding) =~= units);
    law_utf16_round_trip(chars);
}

/// Data in UTF-16 starts with a byte order mark, by which it is decoded to the
/// same text.
pub proof fn law_utf16_data_round_trip(chars: Seq<char>)
    ensures
        ({
            let bytes = data_mark(NSUTF16StringEncoding) + encoded(
                chars,
                NSUTF16StringEncoding,
                false,
            ).unwrap();
            &&& utf16_units(bytes, NSUTF16StringEncoding) == text_units(chars)
            &&& string_text(StringView::Utf16(utf16_units(bytes, NSUTF16StringEncoding))) == chars
        }),
{
    let units = text_units(chars);
    let body = all_unit_bytes(units, false);
    let bytes = data_mark(NSUTF16StringEncoding) + body;
    lemma_unit_bytes_len(units, false);
    assert(whole_units(bytes, 2) =~= bytes);
    assert(utf16_layout(bytes, NSUTF16StringEncoding) == (false, 2int));
    assert forall|i: int| 0 <= i < units.len() implies utf16_unit(bytes, 2 + 2 * i, false)
        == units[i] by {
        lemma_unit_bytes_at(units, false, i);
        assert(bytes[2 + 2 * i] == body[2 * i]);
        assert(bytes[2 + 2 * i + 1] == body[2 * i + 1]);
    }
    assert(utf16_units(bytes, NSUTF16StringEncoding) =~= units);
    law_utf16_round_trip(chars);
}

proof fn lemma_code_bytes_at(chars: Seq<char>, big: bool, i: int)
    requires
        0 <= i < chars.len(),
    ensures
        all_code_bytes(chars, big).len() == 4 * chars.len(),
        forall|k: int|
            0 <= k < 4 ==> #[trigger] all_code_bytes(chars, big)[4 * i + k] == code_bytes(
                chars[i] as u32,
                big,
            )[k],
    decreases chars.len(),
{
    lemma_code_bytes_len(chars.drop_last(), big);
    if i < chars.len() - 1 {
        lemma_code_bytes_at(chars.drop_last(), big, i);
        let front = all_code_bytes(chars.drop_last(), big);
        assert forall|k: int| 0 <= k < 4 implies #[trigger] all_code_bytes(chars, big)[4 * i + k]
            == code_bytes(chars[i] as u32, big)[k] by {
            assert(all_code_bytes(chars, big)[4 * i + k] == front[4 * i + k]);
        }
    }
}

proof fn lemma_code_bytes_len(chars: Seq<char>, big: bool)
    ensures
        all_code_bytes(chars, big).len() == 4 * chars.len(),
    decreases chars.len(),
{
    if chars.len() > 0 {
        lemma_code_bytes_len(chars.drop_last(), big);
    }
}

proof fn lemma_code_from_bytes(code: u32, big: bool, bytes: Seq<u8>, at: int)
    requires
        0 <= at,
        at + 4 <= bytes.len(),
        forall|k: int| 0 <= k < 4 ==> #[trigger] bytes[at + k] == code_bytes(code, big)[k],
    ensures
        utf32_code(bytes, at, big) == code,
{
    let b = code_bytes(code, big);
    assert(bytes[at + 0] == b[0] && bytes[at + 1] == b[1] && bytes[at + 2] == b[2] && bytes[at + 3]
        == b[3]);
    let low = code % 0x1_0000;
    let high = code / 0x1_0000;
    assert(code == low + 0x1_0000 * high);
    assert(code / 256 % 256 == low / 256);
    assert(code / 0x100_0000 == high / 256);
}

/// A text that is encoded in UTF-32 with a fixed byte order is decoded to the
/// same text.
pub proof fn law_utf32_bytes_round_trip(chars: Seq<char>, encoding: u32)
    requires
        encoding == NSUTF32BigEndianStringEncoding || encoding
            == NSUTF32LittleEndianStringEncoding,
    ensures
        utf32_chars(encoded(chars, encoding, false).unwrap(), encoding) == chars,
{
    let big = encoding == NSUTF32BigEndianStringEncoding;
    let bytes = all_code_bytes(chars, big);
    lemma_code_bytes_len(chars, big);
    assert(whole_units(bytes, 4) =~= bytes);
    assert forall|i: int| 0 <= i < chars.len() implies char_or_replacement(
        utf32_code(bytes, 4 * i, big),
    ) == chars[i] by {
        lemma_code_bytes_at(chars, big, i);
        lemma_code_from_bytes(chars[i] as u32, big, bytes, 4 * i);
        utf8::char_is_scalar(chars[i]);
        utf8::char_u32_cast(chars[i], chars[i] as u32);
    }
    assert(utf32_chars(bytes, encoding) =~= chars);
}

/// Data in UTF-32 starts with a byte order mark, by which it is decoded to the same
/// text.
pub proof fn law_utf32_data_round_trip(chars: Seq<char>)
    ensures
        ({
            let bytes = data_mark(NSUTF32StringEncoding) + encoded(
                chars,
                NSUTF32StringEncoding,
                false,
            ).unwrap();
            utf32_chars(bytes, NSUTF32StringEncoding) == chars
        }),
{
    let body = all_code_bytes(chars, false);
    let bytes = data_mark(NSUTF32StringEncoding) + body;
    lemma_code_bytes_len(chars, false);
    assert(whole_units(bytes, 4) =~= bytes);
    assert(utf32_layout(bytes, NSUTF32StringEncoding) == (false, 4int));
    assert forall|i: int| 0 <= i < chars.len() implies char_or_replacement(
        utf32_code(bytes, 4 + 4 * i, false),
    ) == chars[i] by {
        lemma_code_bytes_at(chars, false, i);
        assert forall|k: int| 0 <= k < 4 implies #[trigger] bytes[4 + 4 * i + k] == code_bytes(
            chars[i] as u32,
            false,
        )[k] by {
            assert(bytes[4 + 4 * i + k] == body[4 * i + k]);
        }
        lemma_code_from_bytes(chars[i] as u32, false, bytes, 4 + 4 * i);
        utf8::char_is_scalar(chars[i]);
        utf8::char_u32_cast(chars[i], chars[i] as u32);
    }
    assert(utf32_chars(bytes, NSUTF32StringEncoding) =~= chars);
}

/// The encodings whose bytes are laid out here.
pub open spec fn plain_encoding(encoding: u32) -> bool {
    utf8_like(encoding) || ascii_like(encoding) || encoding == NSISOLatin1StringEncoding
        || utf16_like(encoding) || utf32_like(encoding)
}

/// What is encoded without loss, with its byte order mark where the encoding leaves the
/// byte order open, is decoded to a string with the same text, all of whose surrogates are
/// paired.
pub proof fn law_encoded_is_decoded(
    chars: Seq<char>,
    encoding: u32,
    bytes: Seq<u8>,
    decoded: Option<StringView>,
)
    requires
        plain_encoding(encoding),
        encoded(chars, encoding, false) == Some(bytes),
        is_decoded(data_mark(encoding) + bytes, encoding, decoded),
    ensures
        decoded matches Some(s) && string_text(s) == chars && (s matches StringView::Utf16(units)
            ==> well_paired(units, 0)),
{
    let data = data_mark(encoding) + bytes;
    law_utf16_round_trip(chars);
    if encoding == NSUTF16StringEncoding {
        law_utf16_data_round_trip(chars);
    } else if encoding == NSUTF32StringEncoding {
        law_utf32_data_round_trip(chars);
    } else {
        assert(data =~= bytes);
        if utf8_like(encoding) {
            if bytes.len() == 0 {
                utf8::encode_utf8_decode_utf8(chars);
                utf8::encode_utf8_decode_utf8(Seq::empty());
                assert(utf8::encode_utf8(Seq::empty()) =~= bytes);
            } else {
                law_utf8_round_trip(chars, decoded->0->Utf8_0);
            }
        } else if ascii_like(encoding) {
            law_ascii_round_trip(chars, encoding, bytes, decoded);
        } else if encoding == NSISOLatin1StringEncoding {
            law_latin1_round_trip(chars);
            if bytes.len() == 0 {
                assert(chars =~= Seq::empty());
            }
        } else if utf16_like(encoding) {
            law_utf16_bytes_round_trip(chars, encoding);
            lemma_unit_bytes_len(text_units(chars), encoding == NSUTF16BigEndianStringEncoding);
            if bytes.len() == 0 {
                assert(text_units(chars) =~= Seq::empty());
                assert(chars =~= Seq::empty());
            }
        } else {
            law_utf32_bytes_round_trip(chars, encoding);
            lemma_code_bytes_len(chars, encoding == NSUTF32BigEndianStringEncoding);
            if bytes.len() == 0 {
                assert(chars =~= Seq::empty());
            }
        }
    }
}

/// Which numbers stand for the encodings that are not looked up by a label.
pub proof fn law_encoding_numbers(encoding: u32)
    ensures
        ascii_like(encoding) <==> encoding == 1 || encoding == 2 || encoding == 7,
        utf8_like(encoding) <==> encoding == 0 || encoding == 4,
        utf16_like(encoding) <==> encoding == 10 || encoding == 0x9000_0100 || encoding
            == 0x9400_0100,
        utf32_like(encoding) <==> encoding == 0x8c00_0100 || encoding == 0x9800_0100 || encoding
            == 0x9c00_0100,
{
}

/// Which labels the other encodings have; the simplified Chinese ones share theirs.
pub proof fn law_legacy_labels(encoding: u32)
    ensures
        legacy_label(3) == Some("euc-jp"@),
        legacy_label(8) == Some("shift_jis"@),
        legacy_label(9) == Some("iso-8859-2"@),
        legacy_label(11) == Some("windows-1251"@),
        legacy_label(12) == Some("windows-1252"@),
        legacy_label(13) == Some("windows-1253"@),
        legacy_label(14) == Some("windows-1254"@),
        legacy_label(15) == Some("windows-1250"@),
        legacy_label(21) == Some("iso-2022-jp"@),
        legacy_label(30) == Some("macintosh"@),
        legacy_label(0x8000_0632) == Some("gb18030"@),
        legacy_label(0x8000_0421) == Some("gbk"@) && legacy_label(0x8000_0630) == Some("gbk"@)
            && legacy_label(0x8000_0631) == Some("gbk"@) && legacy_label(0x8000_0930) == Some(
            "gbk"@,
        ),
        legacy_label(0x8000_0940) == Some("euc-kr"@),
        legacy_label(0x8000_0a03) == Some("big5"@),
        plain_encoding(encoding) ==> legacy_label(encoding) is None,
        legacy_label(encoding) is Some ==> encoding == 3 || encoding == 8 || encoding == 9 || 11
            <= encoding <= 15 || encoding == 21 || encoding == 30 || encoding == 0x8000_0421
            || 0x8000_0630 <= encoding <= 0x8000_0632 || encoding == 0x8000_0930 || encoding
            == 0x8000_0940 || encoding == 0x8000_0a03,
{
}

/// The big-endian encodings put the highest byte of a unit first, and all others the
/// lowest.
pub proof fn law_byte_order(c: char)
    ensures
        ({
            let code = c as int;
            let low = (code % 256) as u8;
            let high = (code / 256 % 256) as u8;
            let plane = (code / 65_536) as u8;
            &&& code < 0x1_0000 ==> encoded(seq![c], 0x9000_0100, false) == Some(seq![high, low])
            &&& code < 0x1_0000 ==> encoded(seq![c], 0x9400_0100, false) == Some(seq![low, high])
            &&& code < 0x1_0000 ==> encoded(seq![c], 10, false) == Some(seq![low, high])
            &&& encoded(seq![c], 0x9800_0100, false) == Some(seq![0, plane, high, low])
            &&& encoded(seq![c], 0x9c00_0100, false) == Some(seq![low, high, plane, 0])
            &&& encoded(seq![c], 0x8c00_0100, false) == Some(seq![low, high, plane, 0])
        }),
{
    assert(seq![c].drop_last() =~= Seq::<char>::empty());
    reveal_with_fuel(text_units, 2);
    reveal_with_fuel(all_code_bytes, 2);
    let code = c as u32;
    if code < 0x1_0000 {
        let u = code as u16;
        assert(text_units(seq![c]) =~= seq![u]);
        assert(seq![u].drop_last() =~= Seq::<u16>::empty());
        reveal_with_fuel(all_unit_bytes, 2);
        assert(all_unit_bytes(seq![u], true) =~= unit_bytes(u, true));
        assert(all_unit_bytes(seq![u], false) =~= unit_bytes(u, false));
        assert(code / 256 % 256 == u / 256);
    }
    assert(all_code_bytes(seq![c], true) =~= code_bytes(code, true));
    assert(all_code_bytes(seq![c], false) =~= code_bytes(code, false));
    assert(code <= 0x10_ffff);
    assert(code / 0x100_0000 == 0);
    assert(code / 0x1_0000 % 256 == code / 65_536);
}

/// Data of an encoding whose name leaves the byte order open begins with the mark that
/// tells it, encoded as any character is; other data begins with no mark.
pub proof fn law_data_mark(encoding: u32)
    ensures
        encoding == 10 || encoding == 0x8c00_0100 ==> Some(data_mark(encoding)) == encoded(
            seq!['\u{feff}'],
            encoding,
            false,
        ),
        encoding != 10 && encoding != 0x8c00_0100 ==> data_mark(encoding).len() == 0,
{
    law_byte_order('\u{feff}');
    assert(('\u{feff}' as int) == 0xfeff);
}

/// A mark at the start of data whose encoding leaves the byte order open tells it, and
/// does not belong to the text; without a mark the lowest byte comes first. With a fixed
/// order a mark is text.
pub proof fn law_byte_order_mark(rest: Seq<u8>)
    ensures
        utf16_units(seq![0xfeu8, 0xff] + rest, 10) == utf16_units(rest, 0x9000_0100),
        utf16_units(seq![0xffu8, 0xfe] + rest, 10) == utf16_units(rest, 0x9400_0100),
        utf32_chars(seq![0u8, 0, 0xfe, 0xff] + rest, 0x8c00_0100) == utf32_chars(rest, 0x9800_0100),
        utf32_chars(seq![0xffu8, 0xfe, 0, 0] + rest, 0x8c00_0100) == utf32_chars(rest, 0x9c00_0100),
        rest.len() < 2 || !((rest[0] == 0xfe && rest[1] == 0xff) || (rest[0] == 0xff && rest[1]
            == 0xfe)) ==> utf16_units(rest, 10) == utf16_units(rest, 0x9400_0100),
        rest.len() < 4 || !((rest[0] == 0 && rest[1] == 0 && rest[2] == 0xfe && rest[3] == 0xff) || (
        rest[0] == 0xff && rest[1] == 0xfe && rest[2] == 0 && rest[3] == 0)) ==> utf32_chars(
            rest,
            0x8c00_0100,
        ) == utf32_chars(rest, 0x9c00_0100),
{
    let big = seq![0xfeu8, 0xff] + rest;
    let little = seq![0xffu8, 0xfe] + rest;
    assert(whole_units(big, 2) =~= seq![0xfeu8, 0xff] + whole_units(rest, 2));
    assert(whole_units(little, 2) =~= seq![0xffu8, 0xfe] + whole_units(rest, 2));
    assert(utf16_units(big, 10) =~= utf16_units(rest, 0x9000_0100));
    assert(utf16_units(little, 10) =~= utf16_units(rest, 0x9400_0100));
    let big32 = seq![0u8, 0, 0xfe, 0xff] + rest;
    let little32 = seq![0xffu8, 0xfe, 0, 0] + rest;
    assert(whole_units(big32, 4) =~= seq![0u8, 0, 0xfe, 0xff] + whole_units(rest, 4));
    assert(whole_units(little32, 4) =~= seq![0xffu8, 0xfe, 0, 0] + whole_units(rest, 4));
    assert(utf32_chars(big32, 0x8c00_0100) =~= utf32_chars(rest, 0x9800_0100));
    assert(utf32_chars(little32, 0x8c00_0100) =~= utf32_chars(rest, 0x9c00_0100));
    assert(utf16_units(rest, 10).len() == utf16_units(rest, 10).len());
}

/// Bytes behind the last whole unit do not count.
pub proof fn law_partial_unit(bytes: Seq<u8>, a: u8, b: u8, c: u8, encoding: u32)
    ensures
        bytes.len() % 2 == 0 ==> utf16_units(bytes.push(a), encoding) == utf16_units(
            bytes,
            encoding,
        ),
        bytes.len() % 4 == 0 ==> utf32_chars(bytes.push(a), encoding) == utf32_chars(
            bytes,
            encoding,
        ) && utf32_chars(bytes.push(a).push(b), encoding) == utf32_chars(bytes, encoding)
            && utf32_chars(bytes.push(a).push(b).push(c), encoding) == utf32_chars(bytes, encoding),
{
    if bytes.len() % 2 == 0 {
        assert(whole_units(bytes.push(a), 2) =~= whole_units(bytes, 2));
    }
    if bytes.len() % 4 == 0 {
        assert(whole_units(bytes.push(a), 4) =~= whole_units(bytes, 4));
        assert(whole_units(bytes.push(a).push(b), 4) =~= whole_units(bytes, 4));
        assert(whole_units(bytes.push(a).push(b).push(c), 4) =~= whole_units(bytes, 4));
    }
}

/// A character beyond the first plane has two units: a high surrogate with the upper ten
/// bits of its code behind that plane, and a low one with the others. Any other character
/// has its code for its only unit.
pub proof fn law_char_units(c: char)
    ensures
        c as u32 <= 0xffff ==> char_units(c) == seq![c as u32 as u16],
        c as u32 > 0xffff ==> {
            let u = char_units(c);
            &&& u.len() == 2
            &&& 0xd800 <= u[0] < 0xdc00
            &&& 0xdc00 <= u[1] < 0xe000
            &&& 1024 * (u[0] - 0xd800) + (u[1] - 0xdc00) + 0x1_0000 == c as u32
        },
{
    assert(c as u32 <= 0x10_ffff);
}

/// Characters become units one by one.
pub proof fn law_text_units(a: Seq<char>, b: Seq<char>)
    ensures
        text_units(a + b) == text_units(a) + text_units(b),
        text_units(Seq::empty()) == Seq::<u16>::empty(),
    decreases b.len(),
{
    if b.len() == 0 {
        assert(a + b =~= a);
        assert(text_units(a) + text_units(b) =~= text_units(a));
    } else {
        assert((a + b).drop_last() =~= a + b.drop_last());
        law_text_units(a, b.drop_last());
        assert(text_units(a) + (text_units(b.drop_last()) + char_units(b.last())) =~= text_units(a)
            + text_units(b.drop_last()) + char_units(b.last()));
    }
}

/// Units become characters one by one, but for a high surrogate and a low one behind it,
/// which are one character. Any other surrogate becomes the replacement character.
pub proof fn law_units_text(unit: u16, low: u16, rest: Seq<u16>)
    ensures
        units_text(Seq::empty(), 0) == Seq::<char>::empty(),
        unit < 0xd800 || unit > 0xdfff ==> units_text(seq![unit] + rest, 0) == seq![unit as char]
            + units_text(rest, 0),
        0xd800 <= unit < 0xdc00 && 0xdc00 <= low < 0xe000 ==> units_text(
            seq![unit, low] + rest,
            0,
        ) == seq![(1024 * (unit - 0xd800) + (low - 0xdc00) + 0x1_0000) as char] + units_text(
            rest,
            0,
        ),
        0xdc00 <= unit < 0xe000 ==> units_text(seq![unit] + rest, 0) == seq!['\u{fffd}']
            + units_text(rest, 0),
        0xd800 <= unit < 0xdc00 && (rest.len() == 0 || rest[0] < 0xdc00 || rest[0] > 0xdfff)
            ==> units_text(seq![unit] + rest, 0) == seq!['\u{fffd}'] + units_text(rest, 0),
{
    lemma_units_shift(seq![unit], rest, 0);
    lemma_units_shift(seq![unit, low], rest, 0);
    assert((seq![unit] + rest)[0] == unit);
    assert((seq![unit, low] + rest)[0] == unit);
    assert((seq![unit, low] + rest)[1] == low);
    if rest.len() > 0 {
        assert((seq![unit] + rest)[1] == rest[0]);
    }
}

/// Units are well paired where they can be had back from their text, and else that text
/// holds a replacement character.
pub proof fn law_well_paired(units: Seq<u16>, i: int)
    requires
        0 <= i <= units.len(),
    ensures
        well_paired(units, i) ==> text_units(units_text(units, i)) == units.skip(i),
        !well_paired(units, i) ==> units_text(units, i).contains('\u{fffd}'),
    decreases units.len() - i,
{
    let text = units_text(units, i);
    if i >= units.len() {
        assert(text_units(text) =~= units.skip(i));
    } else if !code_units::surrogate(units[i]) {
        let c = units[i] as char;
        let rest = units_text(units, i + 1);
        law_well_paired(units, i + 1);
        assert(text =~= seq![c] + rest);
        lemma_one_char_units(c);
        law_text_units(seq![c], rest);
        assert((c as u32) as int == units[i]);
        assert(seq![units[i]] + units.skip(i + 1) =~= units.skip(i));
        lemma_contains_behind(c, rest);
    } else if high_surrogate(units[i]) && i + 1 < units.len() && low_surrogate(units[i + 1]) {
        let c = pair_char(units[i], units[i + 1]);
        let rest = units_text(units, i + 2);
        law_well_paired(units, i + 2);
        assert(text =~= seq![c] + rest);
        lemma_one_char_units(c);
        law_text_units(seq![c], rest);
        assert((c as u32) as int == 0x1_0000 + (units[i] - 0xd800) * 0x400 + (units[i + 1]
            - 0xdc00));
        assert(char_units(c) =~= seq![units[i], units[i + 1]]);
        assert(seq![units[i], units[i + 1]] + units.skip(i + 2) =~= units.skip(i));
        lemma_contains_behind(c, rest);
    } else {
        assert(text[0] == '\u{fffd}');
    }
}

proof fn lemma_one_char_units(c: char)
    ensures
        text_units(seq![c]) == char_units(c),
{
    assert(seq![c].drop_last() =~= Seq::<char>::empty());
    reveal_with_fuel(text_units, 2);
    assert(Seq::<u16>::empty() + char_units(c) =~= char_units(c));
}

proof fn lemma_contains_behind(c: char, rest: Seq<char>)
    ensures
        rest.contains('\u{fffd}') ==> (seq![c] + rest).contains('\u{fffd}'),
{
    if rest.contains('\u{fffd}') {
        let k = choose|k: int| 0 <= k < rest.len() && rest[k] == '\u{fffd}';
        assert((seq![c] + rest)[k + 1] == rest[k]);
    }
}

/// A code of UTF-32 that is no character is taken for the replacement character.
pub proof fn law_code_without_char(code: u32)
    ensures
        code >= 0x11_0000 || 0xd800 <= code < 0xe000 ==> char_or_replacement(code) == '\u{fffd}',
        code < 0xd800 || 0xe000 <= code < 0x11_0000 ==> char_or_replacement(code) == code as char,
{
}

/// ASCII takes the characters below 128 and Latin-1 those below 256. A text with another
/// character has no encoding, but where some of it may be lost a question mark stands for
/// each of those.
pub proof fn law_small_encodings(chars: Seq<char>, encoding: u32, i: int)
    requires
        encoding == 1 || encoding == 2 || encoding == 5 || encoding == 7,
        0 <= i < chars.len(),
    ensures
        ({
            let limit: int = if encoding == 5 {
                256
            } else {
                128
            };
            &&& encoded(chars, encoding, true) matches Some(bytes) && bytes.len() == chars.len()
                && bytes[i] == if (chars[i] as u32) < limit {
                (chars[i] as u32) as int
            } else {
                '?' as int
            }
            &&& (chars[i] as u32) >= limit ==> encoded(chars, encoding, false) is None
            &&& (forall|k: int| 0 <= k < chars.len() ==> (#[trigger] chars[k] as u32) < limit)
                ==> encoded(chars, encoding, false) == encoded(chars, encoding, true)
        }),
{
    assert('?' as int == 63);
}

/// A terminator is as long as an encoded zero.
pub proof fn law_terminator(encoding: u32)
    requires
        plain_encoding(encoding),
    ensures
        terminator_size(encoding) == encoded(seq!['\0'], encoding, false)->0.len(),
{
    law_byte_order('\0');
    assert('\0' as int == 0);
    assert(seq!['\0'].drop_first() =~= Seq::<char>::empty());
    if utf8_like(encoding) {
        reveal_with_fuel(utf8::encode_utf8, 2);
        assert('\0' as u32 <= 0x7f);
    }
}

/// A label's encoding takes a text as a whole where it can. Where some of it may be lost
/// each character is encoded by itself, or becomes a question mark.
pub proof fn law_legacy_encoded(chars: Seq<char>, c: char, label: Seq<char>, encoding: u32)
    requires
        legacy_label(encoding) == Some(label),
    ensures
        ({
            let (bytes, unmappable) = legacy_encoded(label, chars);
            &&& !unmappable ==> encoded(chars, encoding, false) == Some(bytes) && encoded(
                chars,
                encoding,
                true,
            ) == Some(bytes)
            &&& unmappable ==> encoded(chars, encoding, false) is None && encoded(
                chars,
                encoding,
                true,
            ) == Some(legacy_or_mark(label, chars))
        }),
        legacy_or_mark(label, Seq::empty()) == Seq::<u8>::empty(),
        legacy_encoded(label, seq![c]).1 ==> legacy_or_mark(label, chars.push(c)) == legacy_or_mark(
            label,
            chars,
        ).push(63),
        !legacy_encoded(label, seq![c]).1 ==> legacy_or_mark(label, chars.push(c))
            == legacy_or_mark(label, chars) + legacy_encoded(label, seq![c]).0,
{
    assert(chars.push(c).drop_last() =~= chars);
    assert(legacy_or_mark(label, chars) + seq![63u8] =~= legacy_or_mark(label, chars).push(63));
}

/// UTF-8 is decoded up to where it stops being valid.
pub proof fn law_utf8_is_decoded(valid: Seq<u8>, rest: Seq<u8>, decoded: Option<StringView>)
    requires
        (valid + rest).len() > 0,
        utf8::valid_utf8(valid),
        forall|m: int|
            valid.len() < m <= valid.len() + rest.len() ==> !utf8::valid_utf8(
                #[trigger] (valid + rest).take(m),
            ),
        is_decoded(valid + rest, 4, decoded),
    ensures
        decoded == Some(StringView::Utf8(utf8::decode_utf8(valid))),
{
    let bytes = valid + rest;
    let n = choose|n: int|
        0 <= n <= bytes.len() && utf8::valid_utf8(#[trigger] bytes.take(n)) && decoded == Some(
            StringView::Utf8(utf8::decode_utf8(bytes.take(n))),
        ) && forall|m: int| n < m <= bytes.len() ==> !utf8::valid_utf8(#[trigger] bytes.take(m));
    assert(bytes.take(valid.len() as int) =~= valid);
    assert(n == valid.len());
}

/// Nothing decodes to an empty text in any encoding, a byte of ASCII or Latin-1 to the
/// character with its code, and a number that stands for no encoding to nothing.
pub proof fn law_bytes_are_decoded(
    bytes: Seq<u8>,
    encoding: u32,
    decoded: Option<StringView>,
    i: int,
)
    requires
        is_decoded(bytes, encoding, decoded),
    ensures
        bytes.len() == 0 ==> decoded == Some(StringView::Utf8(Seq::<char>::empty())),
        (encoding == 1 || encoding == 2 || encoding == 5 || encoding == 7) && 0 <= i < bytes.len()
            ==> (decoded matches Some(StringView::Utf8(text)) && text.len() == bytes.len()
            && text[i] == bytes[i] as char),
        bytes.len() > 0 && !plain_encoding(encoding) && legacy_label(encoding) is None ==> decoded
            is None,
        bytes.len() > 0 && legacy_label(encoding) is Some ==> decoded == Some(
            StringView::Utf8(legacy_decoded(legacy_label(encoding)->0, bytes).0),
        ),
{
}

} // verus!
