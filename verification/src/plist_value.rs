//! Property lists: the values that the library works on, and how they are read
//! from bytes and written to them.
use crate::doubles;
use crate::text::{chars_of, same_chars};
use crate::xml_dates;
use crate::xml_dates::holds_late_date;
use vstd::prelude::*;

verus! {

/// A property list. The keys of a dictionary are distinct.
pub enum PlistValue {
    Array(Vec<PlistValue>),
    Dictionary(Vec<(String, PlistValue)>),
    Boolean(bool),
    Data(Vec<u8>),
    /// A point in time, by its distance from the Unix epoch.
    Date { before: bool, seconds: u64, nanos: u32 },
    /// The bits of a double.
    Real(u64),
    Integer(i64),
    /// An integer that is too large for the signed type.
    Unsigned(u64),
    Str(String),
    Uid(u64),
    /// A kind of value that the library does not know.
    Unknown,
}

/// What a property list holds.
pub enum PlistView {
    Array(Seq<PlistView>),
    Dictionary(Seq<(Seq<char>, PlistView)>),
    Boolean(bool),
    Data(Seq<u8>),
    Date { before: bool, seconds: u64, nanos: u32 },
    Real(u64),
    Integer(int),
    Str(Seq<char>),
    Uid(u64),
    Unknown,
}

pub open spec fn plist_view(value: PlistValue) -> PlistView
    decreases value,
{
    match value {
        PlistValue::Array(items) => PlistView::Array(plist_views(items@)),
        PlistValue::Dictionary(entries) => PlistView::Dictionary(entry_views(entries@)),
        PlistValue::Boolean(b) => PlistView::Boolean(b),
        PlistValue::Data(bytes) => PlistView::Data(bytes@),
        PlistValue::Date { before, seconds, nanos } => PlistView::Date { before, seconds, nanos },
        PlistValue::Real(bits) => PlistView::Real(bits),
        PlistValue::Integer(v) => PlistView::Integer(v as int),
        PlistValue::Unsigned(v) => PlistView::Integer(v as int),
        PlistValue::Str(s) => PlistView::Str(s@),
        PlistValue::Uid(uid) => PlistView::Uid(uid),
        PlistValue::Unknown => PlistView::Unknown,
    }
}

pub open spec fn plist_views(items: Seq<PlistValue>) -> Seq<PlistView>
    decreases items,
{
    if items.len() == 0 {
        Seq::empty()
    } else {
        plist_views(items.drop_last()).push(plist_view(items.last()))
    }
}

pub open spec fn entry_views(entries: Seq<(String, PlistValue)>) -> Seq<(Seq<char>, PlistView)>
    decreases entries,
{
    if entries.len() == 0 {
        Seq::empty()
    } else {
        entry_views(entries.drop_last()).push((entries.last().0@, plist_view(entries.last().1)))
    }
}

impl View for PlistValue {
    type V = PlistView;

    open spec fn view(&self) -> PlistView {
        plist_view(*self)
    }
}

/// The items of an array are seen one by one.
pub proof fn lemma_plist_views(items: Seq<PlistValue>)
    ensures
        plist_views(items).len() == items.len(),
        forall|i: int| 0 <= i < items.len() ==> #[trigger] plist_views(items)[i] == items[i]@,
    decreases items.len(),
{
    if items.len() > 0 {
        lemma_plist_views(items.drop_last());
    }
}

/// The entries of a dictionary are seen one by one.
pub proof fn lemma_entry_views(entries: Seq<(String, PlistValue)>)
    ensures
        entry_views(entries).len() == entries.len(),
        forall|i: int|
            0 <= i < entries.len() ==> #[trigger] entry_views(entries)[i] == (
                entries[i].0@,
                entries[i].1@,
            ),
    decreases entries.len(),
{
    if entries.len() > 0 {
        lemma_entry_views(entries.drop_last());
    }
}

/// The value of a key.
pub open spec fn entry_of(entries: Seq<(Seq<char>, PlistView)>, key: Seq<char>) -> Option<PlistView>
    decreases entries.len(),
{
    if entries.len() == 0 {
        None
    } else if entries[0].0 == key {
        Some(entries[0].1)
    } else {
        entry_of(entries.drop_first(), key)
    }
}

/// The value of a key in a dictionary; nothing for other values.
pub open spec fn value_of(plist: PlistView, key: Seq<char>) -> Option<PlistView> {
    match plist {
        PlistView::Dictionary(entries) => entry_of(entries, key),
        _ => None,
    }
}

pub open spec fn signed_of(plist: PlistView) -> Option<i64> {
    match plist {
        PlistView::Integer(v) => if i64::MIN <= v <= i64::MAX {
            Some(v as i64)
        } else {
            None
        },
        _ => None,
    }
}

pub open spec fn unsigned_of(plist: PlistView) -> Option<u64> {
    match plist {
        PlistView::Integer(v) => if 0 <= v <= u64::MAX {
            Some(v as u64)
        } else {
            None
        },
        _ => None,
    }
}

/// The entries with a value for a key: in the place of the value that the key has,
/// or else behind the others.
pub open spec fn entry_put(
    entries: Seq<(Seq<char>, PlistView)>,
    key: Seq<char>,
    value: PlistView,
) -> Seq<(Seq<char>, PlistView)>
    decreases entries.len(),
{
    if entries.len() == 0 {
        seq![(key, value)]
    } else if entries[0].0 == key {
        entries.update(0, (key, value))
    } else {
        seq![entries[0]] + entry_put(entries.drop_first(), key, value)
    }
}

proof fn lemma_entry_put(
    entries: Seq<(Seq<char>, PlistView)>,
    key: Seq<char>,
    value: PlistView,
    k: int,
)
    requires
        0 <= k <= entries.len(),
        forall|j: int| 0 <= j < k ==> (#[trigger] entries[j]).0 != key,
        k < entries.len() ==> entries[k].0 == key,
    ensures
        entry_put(entries, key, value) == if k < entries.len() {
            entries.update(k, (key, value))
        } else {
            entries.push((key, value))
        },
    decreases entries.len(),
{
    if k > 0 {
        let rest = entries.drop_first();
        assert forall|j: int| 0 <= j < k - 1 implies (#[trigger] rest[j]).0 != key by {
            assert(entries[j + 1].0 != key);
        }
        lemma_entry_put(rest, key, value, k - 1);
        if k < entries.len() {
            assert(seq![entries[0]] + rest.update(k - 1, (key, value)) =~= entries.update(
                k,
                (key, value),
            ));
        } else {
            assert(seq![entries[0]] + rest.push((key, value)) =~= entries.push((key, value)));
        }
    } else if entries.len() == 0 {
        assert(entries.push((key, value)) =~= seq![(key, value)]);
    }
}

/// A value that was put under a key is found there, and the other keys have the
/// values that they had.
pub proof fn law_put_is_found(
    entries: Seq<(Seq<char>, PlistView)>,
    key: Seq<char>,
    value: PlistView,
    other: Seq<char>,
)
    ensures
        entry_of(entry_put(entries, key, value), key) == Some(value),
        other != key ==> entry_of(entry_put(entries, key, value), other) == entry_of(
            entries,
            other,
        ),
    decreases entries.len(),
{
    let put = entry_put(entries, key, value);
    reveal_with_fuel(entry_of, 2);
    if entries.len() > 0 {
        if entries[0].0 == key {
            assert(put.drop_first() =~= entries.drop_first());
        } else {
            law_put_is_found(entries.drop_first(), key, value, other);
            assert(put.drop_first() =~= entry_put(entries.drop_first(), key, value));
        }
    }
}

/// Puts a value under a key of a dictionary.
pub fn insert_entry(entries: &mut Vec<(String, PlistValue)>, key: &str, value: PlistValue)
    ensures
        entry_views(final(entries)@) == entry_put(entry_views(old(entries)@), key@, value@),
{
    let wanted = chars_of(key);
    let ghost views = entry_views(entries@);
    proof {
        lemma_entry_views(entries@);
    }
    let mut i: usize = 0;
    while i < entries.len()
        invariant_except_break
            i <= entries@.len(),
            wanted@ == key@,
            views.len() == entries@.len(),
            forall|k: int|
                0 <= k < entries@.len() ==> #[trigger] views[k] == (
                    entries@[k].0@,
                    entries@[k].1@,
                ),
            forall|k: int| 0 <= k < i ==> (#[trigger] views[k]).0 != key@,
        ensures
            i <= entries@.len(),
            forall|k: int| 0 <= k < i ==> (#[trigger] views[k]).0 != key@,
            i < entries@.len() ==> views[i as int].0 == key@,
        decreases entries@.len() - i,
    {
        let name = chars_of(entries[i].0.as_str());
        if same_chars(&name, &wanted) {
            break;
        }
        i = i + 1;
    }
    proof {
        lemma_entry_put(views, key@, value@, i as int);
    }
    if i < entries.len() {
        entries.set(i, (key.to_owned(), value));
    } else {
        entries.push((key.to_owned(), value));
    }
    proof {
        lemma_entry_views(entries@);
        assert(entry_views(entries@) =~= entry_put(views, key@, value@));
    }
}

impl PlistValue {
    /// The value of a key in a dictionary; nothing for other values.
    pub fn get(&self, key: &str) -> (found: Option<&PlistValue>)
        ensures
            match found {
                Some(value) => value_of(self@, key@) == Some(value@),
                None => value_of(self@, key@) is None,
            },
    {
        match self {
            PlistValue::Dictionary(entries) => {
                let wanted = chars_of(key);
                let mut i: usize = 0;
                let ghost views = entry_views(entries@);
                proof {
                    lemma_entry_views(entries@);
                    assert(views.skip(0) =~= views);
                }
                while i < entries.len()
                    invariant
                        i <= entries@.len(),
                        wanted@ == key@,
                        views == entry_views(entries@),
                        views.len() == entries@.len(),
                        self@ == PlistView::Dictionary(views),
                        forall|k: int|
                            0 <= k < entries@.len() ==> #[trigger] views[k] == (
                                entries@[k].0@,
                                entries@[k].1@,
                            ),
                        entry_of(views, key@) == entry_of(views.skip(i as int), key@),
                    decreases entries@.len() - i,
                {
                    let name = chars_of(entries[i].0.as_str());
                    assert(views.skip(i as int)[0] == views[i as int]);
                    assert(views.skip(i as int).drop_first() =~= views.skip(i + 1));
                    if same_chars(&name, &wanted) {
                        return Some(&entries[i].1);
                    }
                    i = i + 1;
                }
                None
            },
            _ => None,
        }
    }

    /// The items of an array; nothing for other values.
    pub fn as_array(&self) -> (items: Option<&Vec<PlistValue>>)
        ensures
            match items {
                Some(items) => self@ == PlistView::Array(plist_views(items@)),
                None => self@ !is Array,
            },
    {
        match self {
            PlistValue::Array(items) => Some(items),
            _ => None,
        }
    }

    pub fn as_str(&self) -> (text: Option<&String>)
        ensures
            match text {
                Some(text) => self@ == PlistView::Str(text@),
                None => self@ !is Str,
            },
    {
        match self {
            PlistValue::Str(text) => Some(text),
            _ => None,
        }
    }

    pub fn as_data(&self) -> (bytes: Option<&Vec<u8>>)
        ensures
            match bytes {
                Some(bytes) => self@ == PlistView::Data(bytes@),
                None => self@ !is Data,
            },
    {
        match self {
            PlistValue::Data(bytes) => Some(bytes),
            _ => None,
        }
    }

    pub fn as_uid(&self) -> (uid: Option<u64>)
        ensures
            match uid {
                Some(uid) => self@ == PlistView::Uid(uid),
                None => self@ !is Uid,
            },
    {
        match self {
            PlistValue::Uid(uid) => Some(*uid),
            _ => None,
        }
    }

    /// The value of an integer that fits the signed type.
    pub fn as_signed_integer(&self) -> (v: Option<i64>)
        ensures
            v == signed_of(self@),
    {
        match self {
            PlistValue::Integer(v) => Some(*v),
            PlistValue::Unsigned(v) => if *v <= i64::MAX as u64 {
                Some(*v as i64)
            } else {
                None
            },
            _ => None,
        }
    }

    /// The value of an integer that fits the unsigned type.
    pub fn as_unsigned_integer(&self) -> (v: Option<u64>)
        ensures
            v == unsigned_of(self@),
    {
        match self {
            PlistValue::Integer(v) => if *v >= 0 {
                Some(*v as u64)
            } else {
                None
            },
            PlistValue::Unsigned(v) => Some(*v),
            _ => None,
        }
    }

    /// The bits of a real number.
    pub fn as_real(&self) -> (bits: Option<u64>)
        ensures
            match bits {
                Some(bits) => self@ == PlistView::Real(bits),
                None => self@ !is Real,
            },
    {
        match self {
            PlistValue::Real(bits) => Some(*bits),
            _ => None,
        }
    }

    pub fn is_dictionary(&self) -> (yes: bool)
        ensures
            yes == (self@ is Dictionary),
    {
        match self {
            PlistValue::Dictionary(_) => true,
            _ => false,
        }
    }
}

/// A value of the `plist` crate.
#[verifier::external_type_specification]
#[verifier::external_body]
pub struct ExPlistValue(plist::Value);

/// What a value of the `plist` crate holds.
pub uninterp spec fn plist_contents(value: plist::Value) -> PlistView;

/// The property list that bytes hold in any of the formats that the `plist`
/// crate reads.
pub uninterp spec fn plist_document(bytes: Seq<u8>) -> Option<PlistView>;

/// The bytes of a property list in the XML format of the `plist` crate.
pub uninterp spec fn plist_xml(contents: PlistView) -> Option<Seq<u8>>;

/// Contents of a list of values of the `plist` crate.
pub open spec fn all_contents(values: Seq<plist::Value>) -> Seq<PlistView> {
    values.map_values(|v: plist::Value| plist_contents(v))
}

/// One level of a value of the `plist` crate.
pub enum Layer<'a> {
    Array(&'a Vec<plist::Value>),
    Dictionary(Vec<(&'a String, &'a plist::Value)>),
    Data(&'a Vec<u8>),
    Str(&'a String),
    /// Anything else.
    Plain,
}

/// A value of the `plist` crate that holds a number, a truth value or a date.
pub enum Plain {
    Boolean(bool),
    Date(bool, u64, u32),
    Real(u64),
    Integer(Option<i64>, Option<u64>),
    Uid(u64),
    /// Anything else.
    Other,
}

/// The layer is the uppermost one of some contents.
pub open spec fn is_layer_of(layer: Layer<'_>, contents: PlistView) -> bool {
    match layer {
        Layer::Array(items) => contents == PlistView::Array(all_contents(items@)),
        Layer::Dictionary(entries) => {
            &&& contents is Dictionary
            &&& contents->Dictionary_0.len() == entries@.len()
            &&& forall|i: int|
                0 <= i < entries@.len() ==> #[trigger] contents->Dictionary_0[i] == (
                    entries@[i].0@,
                    plist_contents(*entries@[i].1),
                )
        },
        Layer::Data(bytes) => contents == PlistView::Data(bytes@),
        Layer::Str(s) => contents == PlistView::Str(s@),
        Layer::Plain => !(contents is Array || contents is Dictionary || contents is Data
            || contents is Str),
    }
}

/// The value is what some contents are, if these are plain.
pub open spec fn is_plain_of(plain: Plain, contents: PlistView) -> bool {
    match plain {
        Plain::Boolean(b) => contents == PlistView::Boolean(b),
        Plain::Date(before, seconds, nanos) => contents == (PlistView::Date {
            before,
            seconds,
            nanos,
        }),
        Plain::Real(bits) => contents == PlistView::Real(bits),
        Plain::Integer(signed, unsigned) => match signed {
            Some(v) => contents == PlistView::Integer(v as int),
            None => unsigned matches Some(v) && v > i64::MAX && contents == PlistView::Integer(
                v as int,
            ),
        },
        Plain::Uid(uid) => contents == PlistView::Uid(uid),
        Plain::Other => contents is Unknown || contents is Array || contents is Dictionary
            || contents is Data || contents is Str,
    }
}

/// Takes one level of a `plist::Value` apart where it holds other values, bytes or a
/// text: the fields are moved as they are. The entries of a dictionary come in its
/// own order.
#[verifier::external_body]
fn take_apart<'a>(value: &'a plist::Value) -> (layer: Layer<'a>)
    ensures
        is_layer_of(layer, plist_contents(*value)),
{
    match value {
        plist::Value::Array(items) => Layer::Array(items),
        plist::Value::Dictionary(entries) => Layer::Dictionary(entries.iter().collect()),
        plist::Value::Data(bytes) => Layer::Data(bytes),
        plist::Value::String(s) => Layer::Str(s),
        _ => Layer::Plain,
    }
}

/// What a `plist::Value` holds where it is a number, a truth value or a date. An
/// integer is given as `Integer::as_signed` and `Integer::as_unsigned` give it, one of
/// which is there; a date by its distance from the Unix epoch; a real number by its
/// bits.
#[verifier::external_body]
fn take_plain(value: &plist::Value) -> (plain: Plain)
    ensures
        is_plain_of(plain, plist_contents(*value)),
{
    match value {
        plist::Value::Boolean(b) => Plain::Boolean(*b),
        plist::Value::Date(d) => std::time::SystemTime::from(*d)
            .duration_since(std::time::SystemTime::UNIX_EPOCH)
            .map_or_else(
                |e| Plain::Date(true, e.duration().as_secs(), e.duration().subsec_nanos()),
                |t| Plain::Date(false, t.as_secs(), t.subsec_nanos()),
            ),
        plist::Value::Real(r) => Plain::Real(r.to_bits()),
        plist::Value::Integer(i) => Plain::Integer(i.as_signed(), i.as_unsigned()),
        plist::Value::Uid(uid) => Plain::Uid(uid.get()),
        _ => Plain::Other,
    }
}

fn copy_data(bytes: &Vec<u8>) -> (copy: Vec<u8>)
    ensures
        copy@ == bytes@,
{
    crate::string_encoding::bytes_between(bytes.as_slice(), 0, bytes.len())
}

/// The library's own form of a value of the `plist` crate.
pub fn plain_value(value: &plist::Value) -> (plain: PlistValue)
    ensures
        plain@ == plist_contents(*value),
    decreases plist_contents(*value),
{
    let ghost contents = plist_contents(*value);
    match take_apart(value) {
        Layer::Array(items) => {
            let mut out: Vec<PlistValue> = Vec::new();
            let mut i: usize = 0;
            while i < items.len()
                invariant
                    i <= items@.len(),
                    contents == plist_contents(*value),
                    contents == PlistView::Array(all_contents(items@)),
                    out@.len() == i,
                    forall|k: int|
                        0 <= k < i ==> (#[trigger] out@[k])@ == plist_contents(items@[k]),
                decreases items@.len() - i,
            {
                assert(all_contents(items@)[i as int] == plist_contents(items@[i as int]));
                assert(decreases_to!(contents => contents->Array_0));
                out.push(plain_value(&items[i]));
                i = i + 1;
            }
            proof {
                lemma_plist_views(out@);
                assert(plist_views(out@) =~= all_contents(items@));
            }
            PlistValue::Array(out)
        },
        Layer::Dictionary(entries) => {
            let mut out: Vec<(String, PlistValue)> = Vec::new();
            let mut i: usize = 0;
            while i < entries.len()
                invariant
                    i <= entries@.len(),
                    contents == plist_contents(*value),
                    is_layer_of(Layer::Dictionary(entries), contents),
                    out@.len() == i,
                    forall|k: int|
                        0 <= k < i ==> (#[trigger] out@[k]).0@ == entries@[k].0@ && out@[k].1@
                            == plist_contents(*entries@[k].1),
                decreases entries@.len() - i,
            {
                assert(contents->Dictionary_0[i as int].1 == plist_contents(
                    *entries@[i as int].1,
                ));
                assert(decreases_to!(contents => contents->Dictionary_0));
                let (key, inner) = entries[i];
                out.push((key.clone(), plain_value(inner)));
                i = i + 1;
            }
            proof {
                lemma_entry_views(out@);
                assert(entry_views(out@) =~= contents->Dictionary_0);
            }
            PlistValue::Dictionary(out)
        },
        Layer::Data(bytes) => PlistValue::Data(copy_data(bytes)),
        Layer::Str(s) => PlistValue::Str(s.clone()),
        Layer::Plain => match take_plain(value) {
            Plain::Boolean(b) => PlistValue::Boolean(b),
            Plain::Date(before, seconds, nanos) => PlistValue::Date { before, seconds, nanos },
            Plain::Real(bits) => PlistValue::Real(bits),
            Plain::Integer(signed, unsigned) => match signed {
                Some(v) => PlistValue::Integer(v),
                None => match unsigned {
                    Some(v) => PlistValue::Unsigned(v),
                    None => PlistValue::Unknown,
                },
            },
            Plain::Uid(uid) => PlistValue::Uid(uid),
            Plain::Other => PlistValue::Unknown,
        },
    }
}

pub open spec fn big_endian(bits: u64) -> Seq<u8> {
    Seq::new(8, |i: int| (bits as int / vstd::arithmetic::power::pow(256, (7 - i) as nat) % 256) as u8)
}

/// The binary property list that holds a single real number.
pub open spec fn real_document(bits: u64) -> Seq<u8> {
    seq![98u8, 112, 108, 105, 115, 116, 48, 48] + seq![0x23u8] + big_endian(bits) + seq![8u8]
        + seq![0u8, 0, 0, 0, 0, 0, 1, 1] + big_endian(1) + big_endian(0) + big_endian(17)
}

/// `plist::Value::from_reader` on bytes: the value that they hold, in the XML,
/// binary or ASCII format, or nothing where it reports an error. A binary list
/// with a single real number, as `real_document` lays it out, is read as the
/// number with those bits. It panics on a date that its offset carries behind the last
/// day that there is, so a document with such a date is left out.
#[verifier::external_body]
fn read_plist(bytes: &[u8]) -> (value: Option<plist::Value>)
    requires
        !xml_dates::has_late_date(bytes@),
    ensures
        match value {
            Some(v) => plist_document(bytes@) == Some(plist_contents(v)) && forall|bits: u64|
                bytes@ == #[trigger] real_document(bits) ==> plist_contents(v) == PlistView::Real(
                    bits,
                ),
            None => plist_document(bytes@) is None && forall|bits: u64|
                bytes@ != #[trigger] real_document(bits),
        },
{
    plist::Value::from_reader(std::io::Cursor::new(bytes)).ok()
}

/// The property list that bytes hold. One with a date that is too late to be read
/// counts as none.
pub open spec fn readable_document(bytes: Seq<u8>) -> Option<PlistView> {
    if xml_dates::has_late_date(bytes) {
        None
    } else {
        plist_document(bytes)
    }
}

/// The property list that bytes hold, if they hold one.
pub fn parse_plist(bytes: &[u8]) -> (value: Option<PlistValue>)
    ensures
        match value {
            Some(v) => readable_document(bytes@) == Some(v@),
            None => readable_document(bytes@) is None,
        },
{
    if holds_late_date(bytes) {
        return None;
    }
    match read_plist(bytes) {
        Some(value) => Some(plain_value(&value)),
        None => None,
    }
}

/// The parts of which a value of the `plist` crate is made.
pub enum Parts {
    Array(Vec<plist::Value>),
    Dictionary(Vec<(String, plist::Value)>),
    Data(Vec<u8>),
    Integer(i64),
    Str(String),
}

/// No key occurs twice.
pub open spec fn distinct_keys(entries: Seq<(String, plist::Value)>) -> bool {
    forall|i: int, j: int|
        0 <= i < j < entries.len() ==> (#[trigger] entries[i]).0@ != (#[trigger] entries[j]).0@
}

pub open spec fn entry_contents(entries: Seq<(String, plist::Value)>) -> Seq<
    (Seq<char>, PlistView),
> {
    entries.map_values(|e: (String, plist::Value)| (e.0@, plist_contents(e.1)))
}

/// Makes a `plist::Value` of its parts: the variant of the same name, and for a
/// dictionary a `plist::Dictionary` with the entries in their order.
#[verifier::external_body]
pub(crate) fn put_together(parts: Parts) -> (value: plist::Value)
    requires
        parts matches Parts::Dictionary(entries) ==> distinct_keys(entries@),
    ensures
        plist_contents(value) == match parts {
            Parts::Array(items) => PlistView::Array(all_contents(items@)),
            Parts::Dictionary(entries) => PlistView::Dictionary(entry_contents(entries@)),
            Parts::Data(bytes) => PlistView::Data(bytes@),
            Parts::Integer(v) => PlistView::Integer(v as int),
            Parts::Str(s) => PlistView::Str(s@),
        },
{
    match parts {
        Parts::Array(items) => plist::Value::Array(items),
        Parts::Dictionary(entries) => plist::Value::Dictionary(entries.into_iter().collect()),
        Parts::Data(bytes) => plist::Value::Data(bytes),
        Parts::Integer(v) => plist::Value::Integer(v.into()),
        Parts::Str(s) => plist::Value::String(s),
    }
}

fn push_big_endian(out: &mut Vec<u8>, bits: u64)
    ensures
        final(out)@ == old(out)@ + big_endian(bits),
{
    proof {
        reveal_with_fuel(vstd::arithmetic::power::pow, 8);
    }
    out.push((bits / 0x100_0000_0000_0000) as u8);
    out.push((bits / 0x1_0000_0000_0000 % 256) as u8);
    out.push((bits / 0x100_0000_0000 % 256) as u8);
    out.push((bits / 0x1_0000_0000 % 256) as u8);
    out.push((bits / 0x100_0000 % 256) as u8);
    out.push((bits / 0x1_0000 % 256) as u8);
    out.push((bits / 0x100 % 256) as u8);
    out.push((bits % 256) as u8);
    assert(out@ =~= old(out)@ + big_endian(bits));
}

fn push_each(out: &mut Vec<u8>, a: u8, b: u8, c: u8, d: u8)
    ensures
        final(out)@ == old(out)@ + seq![a, b, c, d],
{
    out.push(a);
    out.push(b);
    out.push(c);
    out.push(d);
    assert(out@ =~= old(out)@ + seq![a, b, c, d]);
}

/// A real number as a value of the `plist` crate.
pub(crate) fn real_value(bits: u64) -> (value: plist::Value)
    ensures
        plist_contents(value) == PlistView::Real(bits),
{
    let mut document: Vec<u8> = Vec::new();
    push_each(&mut document, 98, 112, 108, 105);
    push_each(&mut document, 115, 116, 48, 48);
    document.push(0x23);
    push_big_endian(&mut document, bits);
    document.push(8);
    push_each(&mut document, 0, 0, 0, 0);
    push_each(&mut document, 0, 0, 1, 1);
    push_big_endian(&mut document, 1);
    push_big_endian(&mut document, 0);
    push_big_endian(&mut document, 17);
    assert(document@ =~= real_document(bits));
    assert(!xml_dates::has_late_date(document@)) by {
        reveal_strlit("bplist00");
    }
    match read_plist(document.as_slice()) {
        Some(value) => value,
        None => {
            assert(false);
            put_together(Parts::Integer(0))
        },
    }
}

/// A property list that its XML form holds fully: numbers are numbers, keys are
/// distinct, and there are no dates, which lose their fractions, and no references.
pub open spec fn survives_xml(contents: PlistView) -> bool
    decreases contents,
{
    match contents {
        PlistView::Array(items) => forall|i: int|
            0 <= i < items.len() ==> survives_xml(#[trigger] items[i]),
        PlistView::Dictionary(entries) => {
            &&& forall|i: int|
                0 <= i < entries.len() ==> survives_xml((#[trigger] entries[i]).1)
            &&& forall|i: int, j: int|
                0 <= i < j < entries.len() ==> (#[trigger] entries[i]).0 != (
                #[trigger] entries[j]).0
        },
        PlistView::Real(bits) => !doubles::is_nan(bits),
        PlistView::Boolean(_) | PlistView::Data(_) | PlistView::Integer(_) | PlistView::Str(
            _,
        ) => true,
        _ => false,
    }
}

/// A property list without dates.
pub open spec fn is_dateless(contents: PlistView) -> bool
    decreases contents,
{
    match contents {
        PlistView::Array(items) => forall|i: int|
            0 <= i < items.len() ==> is_dateless(#[trigger] items[i]),
        PlistView::Dictionary(entries) => forall|i: int|
            0 <= i < entries.len() ==> is_dateless((#[trigger] entries[i]).1),
        PlistView::Date { before, seconds, nanos } => false,
        _ => true,
    }
}

/// `plist::Value::to_writer_xml` into memory: the XML form of a value, which depends
/// on nothing but the contents, or nothing where it reports an error. What the form
/// holds fully is written without an error, and `plist::Value::from_reader` reads the
/// same contents from it. It panics on a date outside of the years 0 to 9999, so only
/// values without dates are admitted; nor is there a date in what it writes of them.
#[verifier::external_body]
pub(crate) fn write_plist(value: &plist::Value) -> (bytes: Option<Vec<u8>>)
    requires
        is_dateless(plist_contents(*value)),
    ensures
        match bytes {
            Some(b) => plist_xml(plist_contents(*value)) == Some(b@) && !xml_dates::has_late_date(
                b@,
            ) && (survives_xml(plist_contents(*value)) ==> plist_document(b@) == Some(
                plist_contents(*value),
            )),
            None => plist_xml(plist_contents(*value)) is None && !survives_xml(
                plist_contents(*value),
            ),
        },
{
    let mut buf = Vec::new();
    value.to_writer_xml(&mut buf).ok().map(|_| buf)
}

/// The value of a key is that of the first entry with it, and there is none only where no
/// entry has it.
pub proof fn law_first_entry(entries: Seq<(Seq<char>, PlistView)>, key: Seq<char>, i: int)
    ensures
        0 <= i < entries.len() && entries[i].0 == key && (forall|k: int|
            0 <= k < i ==> (#[trigger] entries[k]).0 != key) ==> entry_of(entries, key) == Some(
            entries[i].1,
        ),
        (forall|k: int| 0 <= k < entries.len() ==> (#[trigger] entries[k]).0 != key) ==> entry_of(
            entries,
            key,
        ) is None,
    decreases entries.len(),
{
    if entries.len() > 0 && entries[0].0 != key {
        let rest = entries.drop_first();
        law_first_entry(rest, key, i - 1);
        if 0 < i < entries.len() {
            assert(rest[i - 1] == entries[i]);
        }
        assert(forall|k: int| 0 <= k < rest.len() ==> rest[k] == entries[k + 1]);
    }
}

/// A new key is put behind all others, and a known one keeps its place.
pub proof fn law_put_in_place(
    entries: Seq<(Seq<char>, PlistView)>,
    key: Seq<char>,
    value: PlistView,
    i: int,
)
    ensures
        (forall|k: int| 0 <= k < entries.len() ==> (#[trigger] entries[k]).0 != key) ==> entry_put(
            entries,
            key,
            value,
        ) == entries.push((key, value)),
        0 <= i < entries.len() && entries[i].0 == key && (forall|k: int|
            0 <= k < i ==> (#[trigger] entries[k]).0 != key) ==> entry_put(entries, key, value)
            == entries.update(i, (key, value)),
    decreases entries.len(),
{
    if entries.len() == 0 {
        assert(entries.push((key, value)) =~= seq![(key, value)]);
    } else if entries[0].0 != key {
        let rest = entries.drop_first();
        law_put_in_place(rest, key, value, i - 1);
        assert(forall|k: int| 0 <= k < rest.len() ==> rest[k] == entries[k + 1]);
        assert(seq![entries[0]] + rest.push((key, value)) =~= entries.push((key, value)));
        if 0 < i < entries.len() {
            assert(rest[i - 1] == entries[i]);
            assert(seq![entries[0]] + rest.update(i - 1, (key, value)) =~= entries.update(
                i,
                (key, value),
            ));
        }
    }
}

/// An integer is a signed number below 2^63 in size, and an unsigned one from 0 to below
/// 2^64; nothing else is either.
pub proof fn law_integer_ranges(v: int, other: PlistView)
    ensures
        -0x8000_0000_0000_0000 <= v < 0x8000_0000_0000_0000 <==> signed_of(PlistView::Integer(v))
            == Some(v as i64),
        signed_of(PlistView::Integer(v)) matches Some(s) ==> s == v,
        0 <= v < 0x1_0000_0000_0000_0000 <==> unsigned_of(PlistView::Integer(v)) is Some,
        unsigned_of(PlistView::Integer(v)) matches Some(u) ==> u == v,
        !(other is Integer) ==> signed_of(other) is None && unsigned_of(other) is None,
{
}

/// Values and entries are taken one by one.
pub proof fn law_views(items: Seq<PlistValue>, entries: Seq<(String, PlistValue)>, i: int)
    ensures
        plist_views(items).len() == items.len(),
        0 <= i < items.len() ==> plist_views(items)[i] == items[i]@,
        entry_views(entries).len() == entries.len(),
        0 <= i < entries.len() ==> entry_views(entries)[i] == (entries[i].0@, entries[i].1@),
    decreases items.len() + entries.len(),
{
    if items.len() > 0 {
        law_views(items.drop_last(), Seq::empty(), i);
    }
    if entries.len() > 0 {
        law_views(Seq::empty(), entries.drop_last(), i);
    }
}

proof fn lemma_powers_of_256()
    ensures
        vstd::arithmetic::power::pow(256, 0) == 1,
        vstd::arithmetic::power::pow(256, 1) == 0x100,
        vstd::arithmetic::power::pow(256, 2) == 0x1_0000,
        vstd::arithmetic::power::pow(256, 3) == 0x100_0000,
        vstd::arithmetic::power::pow(256, 4) == 0x1_0000_0000,
        vstd::arithmetic::power::pow(256, 5) == 0x100_0000_0000,
        vstd::arithmetic::power::pow(256, 6) == 0x1_0000_0000_0000,
        vstd::arithmetic::power::pow(256, 7) == 0x100_0000_0000_0000,
{
    reveal_with_fuel(vstd::arithmetic::power::pow, 9);
}

proof fn lemma_digits_of_256(v: int)
    requires
        0 <= v < 0x1_0000_0000_0000_0000,
    ensures
        0x100_0000_0000_0000 * (v / 0x100_0000_0000_0000 % 256) + 0x1_0000_0000_0000 * (v
            / 0x1_0000_0000_0000 % 256) + 0x100_0000_0000 * (v / 0x100_0000_0000 % 256)
            + 0x1_0000_0000 * (v / 0x1_0000_0000 % 256) + 0x100_0000 * (v / 0x100_0000 % 256)
            + 0x1_0000 * (v / 0x1_0000 % 256) + 0x100 * (v / 0x100 % 256) + v % 256 == v,
{
    let a = v / 0x100;
    let b = v / 0x1_0000;
    let c = v / 0x100_0000;
    let d = v / 0x1_0000_0000;
    let e = v / 0x100_0000_0000;
    let f = v / 0x1_0000_0000_0000;
    let g = v / 0x100_0000_0000_0000;
    assert(a / 256 == b);
    assert(b / 256 == c);
    assert(c / 256 == d);
    assert(d / 256 == e);
    assert(e / 256 == f);
    assert(f / 256 == g);
    assert(g % 256 == g);
}

/// The highest byte of a number comes first.
pub proof fn law_big_endian(bits: u64)
    ensures
        ({
            let b = big_endian(bits);
            &&& b.len() == 8
            &&& 0x100_0000_0000_0000 * b[0] + 0x1_0000_0000_0000 * b[1] + 0x100_0000_0000 * b[2]
                + 0x1_0000_0000 * b[3] + 0x100_0000 * b[4] + 0x1_0000 * b[5] + 0x100 * b[6] + b[7]
                == bits
        }),
{
    lemma_powers_of_256();
    lemma_digits_of_256(bits as int);
}

/// A document is read as a property list, unless it holds a date that is too late.
pub proof fn law_readable(bytes: Seq<u8>)
    ensures
        xml_dates::has_late_date(bytes) ==> readable_document(bytes) is None,
        !xml_dates::has_late_date(bytes) ==> readable_document(bytes) == plist_document(bytes),
{
}

} // verus!
