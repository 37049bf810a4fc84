//! The keychain: items with a class, attributes and data, kept in a property
//! list.
use crate::doubles;
use crate::doubles::{reals_equal, signed_to_real};
use crate::ns_data;
use crate::ns_data::new_nsdata;
use crate::ns_string;
use crate::ns_string::from_rust_string;
use crate::objc::{autorelease, retain, Environment, HostObject, Id, NumberValue, Object};
use crate::plist_value;
use crate::plist_value::{
    parse_plist, put_together, real_value, write_plist, Parts, PlistValue, PlistView,
};
use crate::string_encoding::{bytes_between, same_bytes, StringView};
use crate::text::{chars_of, same_chars};
use vstd::prelude::*;
use vstd::utf8;

verus! {

pub const ERR_SEC_SUCCESS: i32 = 0;

pub const ERR_SEC_IO: i32 = -36;

pub const ERR_SEC_PARAM: i32 = -50;

pub const ERR_SEC_DUPLICATE_ITEM: i32 = -25299;

pub const ERR_SEC_ITEM_NOT_FOUND: i32 = -25300;

/// The value of an attribute. A real number is held by its bits.
pub enum KcValue {
    Str(String),
    Data(Vec<u8>),
    Int(i64),
    Real(u64),
}

pub enum KcView {
    Str(Seq<char>),
    Data(Seq<u8>),
    Int(i64),
    Real(u64),
}

impl View for KcValue {
    type V = KcView;

    open spec fn view(&self) -> KcView {
        match self {
            KcValue::Str(s) => KcView::Str(s@),
            KcValue::Data(d) => KcView::Data(d@),
            KcValue::Int(i) => KcView::Int(*i),
            KcValue::Real(r) => KcView::Real(*r),
        }
    }
}

/// Whether two values count as the same: a text and data by the text's bytes,
/// an integer and a real number by the nearest real number.
pub open spec fn loosely_equal(a: KcView, b: KcView) -> bool {
    match (a, b) {
        (KcView::Str(x), KcView::Str(y)) => x == y,
        (KcView::Data(x), KcView::Data(y)) => x == y,
        (KcView::Str(s), KcView::Data(d)) => utf8::encode_utf8(s) == d,
        (KcView::Data(d), KcView::Str(s)) => utf8::encode_utf8(s) == d,
        (KcView::Int(x), KcView::Int(y)) => x == y,
        (KcView::Real(x), KcView::Real(y)) => doubles::equal(x, y),
        (KcView::Int(i), KcView::Real(r)) => doubles::equal(
            doubles::of_integer(i as int) as u64,
            r,
        ),
        (KcView::Real(r), KcView::Int(i)) => doubles::equal(
            doubles::of_integer(i as int) as u64,
            r,
        ),
        _ => false,
    }
}

/// Whether two values count as the same does not depend on their order.
pub proof fn law_loosely_equal_is_symmetric(a: KcView, b: KcView)
    ensures
        loosely_equal(a, b) == loosely_equal(b, a),
{
}

fn same_text(a: &str, b: &str) -> (same: bool)
    ensures
        same == (a@ == b@),
{
    same_chars(&chars_of(a), &chars_of(b))
}

fn copy_bytes(bytes: &Vec<u8>) -> (copy: Vec<u8>)
    ensures
        copy@ == bytes@,
{
    let copy = bytes_between(bytes.as_slice(), 0, bytes.len());
    assert(copy@ =~= bytes@);
    copy
}

impl KcValue {
    /// Whether two values count as the same.
    pub fn loosely_equals(&self, other: &KcValue) -> (same: bool)
        ensures
            same == loosely_equal(self@, other@),
    {
        match (self, other) {
            (KcValue::Str(a), KcValue::Str(b)) => same_text(a.as_str(), b.as_str()),
            (KcValue::Data(a), KcValue::Data(b)) => same_bytes(a.as_slice(), b.as_slice()),
            (KcValue::Str(s), KcValue::Data(d)) => same_bytes(
                s.as_str().as_bytes(),
                d.as_slice(),
            ),
            (KcValue::Data(d), KcValue::Str(s)) => same_bytes(
                s.as_str().as_bytes(),
                d.as_slice(),
            ),
            (KcValue::Int(a), KcValue::Int(b)) => *a == *b,
            (KcValue::Real(a), KcValue::Real(b)) => reals_equal(*a, *b),
            (KcValue::Int(i), KcValue::Real(r)) => reals_equal(signed_to_real(*i), *r),
            (KcValue::Real(r), KcValue::Int(i)) => reals_equal(signed_to_real(*i), *r),
            _ => false,
        }
    }

    fn copy(&self) -> (copy: KcValue)
        ensures
            copy@ == self@,
    {
        match self {
            KcValue::Str(s) => KcValue::Str(s.clone()),
            KcValue::Data(d) => KcValue::Data(copy_bytes(d)),
            KcValue::Int(i) => KcValue::Int(*i),
            KcValue::Real(r) => KcValue::Real(*r),
        }
    }

    /// The value in a property list.
    pub fn to_plist(&self) -> (value: plist::Value)
        ensures
            plist_value::plist_contents(value) == plist_of(self@),
    {
        match self {
            KcValue::Str(s) => put_together(Parts::Str(s.clone())),
            KcValue::Data(d) => put_together(Parts::Data(copy_bytes(d))),
            KcValue::Int(i) => put_together(Parts::Integer(*i)),
            KcValue::Real(r) => real_value(*r),
        }
    }

    /// The value that a property list holds; nothing for the kinds that are no
    /// attribute values.
    pub fn from_plist(value: &PlistValue) -> (read: Option<KcValue>)
        ensures
            match read {
                Some(v) => from_plist_of(value@) == Some(v@),
                None => from_plist_of(value@) is None,
            },
    {
        match value {
            PlistValue::Str(s) => Some(KcValue::Str(s.clone())),
            PlistValue::Data(d) => Some(KcValue::Data(copy_bytes(d))),
            PlistValue::Real(r) => Some(KcValue::Real(*r)),
            _ => match value.as_signed_integer() {
                Some(i) => Some(KcValue::Int(i)),
                None => None,
            },
        }
    }
}

pub open spec fn plist_of(value: KcView) -> PlistView {
    match value {
        KcView::Str(s) => PlistView::Str(s),
        KcView::Data(d) => PlistView::Data(d),
        KcView::Int(i) => PlistView::Integer(i as int),
        KcView::Real(r) => PlistView::Real(r),
    }
}

pub open spec fn from_plist_of(value: PlistView) -> Option<KcView> {
    match value {
        PlistView::Str(s) => Some(KcView::Str(s)),
        PlistView::Data(d) => Some(KcView::Data(d)),
        PlistView::Real(r) => Some(KcView::Real(r)),
        _ => match plist_value::signed_of(value) {
            Some(i) => Some(KcView::Int(i)),
            None => None,
        },
    }
}

/// A value that is written is read back.
pub proof fn law_value_round_trip(value: KcView)
    ensures
        from_plist_of(plist_of(value)) == Some(value),
{
}

/// Attributes as a contract sees them.
pub open spec fn attr_views(attrs: Seq<(String, KcValue)>) -> Seq<(Seq<char>, KcView)> {
    attrs.map_values(|e: (String, KcValue)| (e.0@, e.1@))
}

/// The value of an attribute.
pub open spec fn attr_of(attrs: Seq<(Seq<char>, KcView)>, key: Seq<char>) -> Option<KcView>
    decreases attrs.len(),
{
    if attrs.len() == 0 {
        None
    } else if attrs[0].0 == key {
        Some(attrs[0].1)
    } else {
        attr_of(attrs.drop_first(), key)
    }
}

/// The attributes with another value for one of them, which is added if there
/// is none of that name.
pub open spec fn with_attr(attrs: Seq<(Seq<char>, KcView)>, key: Seq<char>, value: KcView) -> Seq<
    (Seq<char>, KcView),
>
    decreases attrs.len(),
{
    if attrs.len() == 0 {
        seq![(key, value)]
    } else if attrs[0].0 == key {
        seq![(key, value)] + attrs.drop_first()
    } else {
        seq![attrs[0]] + with_attr(attrs.drop_first(), key, value)
    }
}

/// The attributes with those of another list set one after the other.
pub open spec fn with_attrs(
    attrs: Seq<(Seq<char>, KcView)>,
    more: Seq<(Seq<char>, KcView)>,
) -> Seq<(Seq<char>, KcView)>
    decreases more.len(),
{
    if more.len() == 0 {
        attrs
    } else {
        with_attr(with_attrs(attrs, more.drop_last()), more.last().0, more.last().1)
    }
}

/// No attribute occurs twice.
pub open spec fn distinct_attrs(attrs: Seq<(Seq<char>, KcView)>) -> bool {
    forall|i: int, j: int|
        0 <= i < j < attrs.len() ==> (#[trigger] attrs[i]).0 != (#[trigger] attrs[j]).0
}

/// An item of the keychain.
pub struct KcItem {
    pub class: String,
    pub attrs: Vec<(String, KcValue)>,
    pub data: Option<Vec<u8>>,
}

pub struct ItemView {
    pub class: Seq<char>,
    pub attrs: Seq<(Seq<char>, KcView)>,
    pub data: Option<Seq<u8>>,
}

pub open spec fn data_view(data: Option<Vec<u8>>) -> Option<Seq<u8>> {
    match data {
        Some(d) => Some(d@),
        None => None,
    }
}

impl View for KcItem {
    type V = ItemView;

    open spec fn view(&self) -> ItemView {
        ItemView {
            class: self.class@,
            attrs: attr_views(self.attrs@),
            data: data_view(self.data),
        }
    }
}

fn copy_data(data: &Option<Vec<u8>>) -> (copy: Option<Vec<u8>>)
    ensures
        data_view(copy) == data_view(*data),
{
    match data {
        Some(d) => Some(copy_bytes(d)),
        None => None,
    }
}

/// The index of an attribute, or the number of attributes.
fn attr_index(attrs: &Vec<(String, KcValue)>, key: &str) -> (index: usize)
    ensures
        index <= attrs@.len(),
        index < attrs@.len() ==> attrs@[index as int].0@ == key@,
        forall|i: int| 0 <= i < index ==> (#[trigger] attrs@[i]).0@ != key@,
{
    let wanted = chars_of(key);
    let mut i: usize = 0;
    while i < attrs.len()
        invariant
            i <= attrs@.len(),
            wanted@ == key@,
            forall|j: int| 0 <= j < i ==> (#[trigger] attrs@[j]).0@ != key@,
        decreases attrs@.len() - i,
    {
        let name = chars_of(attrs[i].0.as_str());
        if same_chars(&name, &wanted) {
            return i;
        }
        i = i + 1;
    }
    i
}

proof fn lemma_attr_at(attrs: Seq<(Seq<char>, KcView)>, key: Seq<char>, index: int)
    requires
        0 <= index <= attrs.len(),
        index < attrs.len() ==> attrs[index].0 == key,
        forall|i: int| 0 <= i < index ==> (#[trigger] attrs[i]).0 != key,
    ensures
        index < attrs.len() ==> attr_of(attrs, key) == Some(attrs[index].1),
        index == attrs.len() ==> attr_of(attrs, key) is None,
        forall|value: KcView|
            #![trigger with_attr(attrs, key, value)]
            with_attr(attrs, key, value) == if index < attrs.len() {
                attrs.update(index, (key, value))
            } else {
                attrs.push((key, value))
            },
    decreases attrs.len(),
{
    if attrs.len() > 0 {
        if index == 0 {
            assert forall|value: KcView| #[trigger] with_attr(attrs, key, value) == attrs.update(
                0,
                (key, value),
            ) by {
                assert(seq![(key, value)] + attrs.drop_first() =~= attrs.update(0, (key, value)));
            }
        } else {
            assert(attrs[0].0 != key);
            let rest = attrs.drop_first();
            assert forall|i: int| 0 <= i < index - 1 implies (#[trigger] rest[i]).0 != key by {
                assert(attrs[i + 1].0 != key);
            }
            lemma_attr_at(rest, key, index - 1);
            assert forall|value: KcView|
                #![trigger with_attr(attrs, key, value)]
                with_attr(attrs, key, value) == if index < attrs.len() {
                    attrs.update(index, (key, value))
                } else {
                    attrs.push((key, value))
                } by {
                let tail = with_attr(rest, key, value);
                if index < attrs.len() {
                    assert(seq![attrs[0]] + tail =~= attrs.update(index, (key, value)));
                } else {
                    assert(seq![attrs[0]] + tail =~= attrs.push((key, value)));
                }
            }
        }
    } else {
        assert forall|value: KcView| #[trigger] with_attr(attrs, key, value) == attrs.push(
            (key, value),
        ) by {
            assert(seq![(key, value)] =~= attrs.push((key, value)));
        }
    }
}

fn find_attr<'a>(attrs: &'a Vec<(String, KcValue)>, key: &str) -> (found: Option<&'a KcValue>)
    ensures
        match found {
            Some(v) => attr_of(attr_views(attrs@), key@) == Some(v@),
            None => attr_of(attr_views(attrs@), key@) is None,
        },
{
    let index: usize = attr_index(attrs, key);
    proof {
        lemma_attr_at(attr_views(attrs@), key@, index as int);
    }
    if index < attrs.len() {
        Some(&attrs[index].1)
    } else {
        None
    }
}

fn put_attr(attrs: &mut Vec<(String, KcValue)>, key: &str, value: KcValue)
    ensures
        attr_views(final(attrs)@) == with_attr(attr_views(old(attrs)@), key@, value@),
{
    let index: usize = attr_index(attrs, key);
    proof {
        lemma_attr_at(attr_views(attrs@), key@, index as int);
    }
    let ghost wanted = with_attr(attr_views(old(attrs)@), key@, value@);
    let entry = (key.to_owned(), value);
    if index < attrs.len() {
        attrs.set(index, entry);
        assert(attr_views(attrs@) =~= attr_views(old(attrs)@).update(
            index as int,
            (key@, value@),
        ));
    } else {
        attrs.push(entry);
        assert(attr_views(attrs@) =~= attr_views(old(attrs)@).push((key@, value@)));
    }
    assert(attr_views(attrs@) == wanted);
}

impl KcItem {
    /// The value of an attribute.
    pub fn attr(&self, key: &str) -> (found: Option<&KcValue>)
        ensures
            match found {
                Some(v) => attr_of(self@.attrs, key@) == Some(v@),
                None => attr_of(self@.attrs, key@) is None,
            },
    {
        find_attr(&self.attrs, key)
    }

    /// Sets an attribute, which is added if there is none of that name.
    pub fn set_attr(&mut self, key: &str, value: KcValue)
        ensures
            final(self)@.attrs == with_attr(old(self)@.attrs, key@, value@),
            final(self)@.class == old(self)@.class,
            final(self)@.data == old(self)@.data,
    {
        put_attr(&mut self.attrs, key, value);
    }
}

/// An attribute that has been set has the value, and no other attribute has
/// changed.
pub proof fn law_set_attr(
    attrs: Seq<(Seq<char>, KcView)>,
    key: Seq<char>,
    value: KcView,
    other: Seq<char>,
)
    ensures
        attr_of(with_attr(attrs, key, value), other) == if other == key {
            Some(value)
        } else {
            attr_of(attrs, other)
        },
    decreases attrs.len(),
{
    let after = with_attr(attrs, key, value);
    if attrs.len() == 0 {
        assert(after.drop_first() =~= Seq::<(Seq<char>, KcView)>::empty());
        assert(attr_of(after.drop_first(), other) is None);
    } else if attrs[0].0 == key {
        assert(after.drop_first() =~= attrs.drop_first());
    } else {
        law_set_attr(attrs.drop_first(), key, value, other);
        assert(after.drop_first() =~= with_attr(attrs.drop_first(), key, value));
    }
}

#[derive(Clone, Copy, Debug, PartialEq, Eq, Structural)]
pub enum MatchLimit {
    One,
    All,
    Count(u64),
}

/// A dictionary that a keychain function has been given.
pub struct ParsedDict {
    pub class: Option<String>,
    pub attrs: Vec<(String, KcValue)>,
    pub data: Option<Vec<u8>>,
    pub return_data: bool,
    pub return_attributes: bool,
    pub limit: MatchLimit,
}

pub struct ParsedView {
    pub class: Option<Seq<char>>,
    pub attrs: Seq<(Seq<char>, KcView)>,
    pub data: Option<Seq<u8>>,
    pub return_data: bool,
    pub return_attributes: bool,
    pub limit: MatchLimit,
}

pub open spec fn text_view(text: Option<String>) -> Option<Seq<char>> {
    match text {
        Some(s) => Some(s@),
        None => None,
    }
}

impl View for ParsedDict {
    type V = ParsedView;

    open spec fn view(&self) -> ParsedView {
        ParsedView {
            class: text_view(self.class),
            attrs: attr_views(self.attrs@),
            data: data_view(self.data),
            return_data: self.return_data,
            return_attributes: self.return_attributes,
            limit: self.limit,
        }
    }
}

/// A value of a guest dictionary: a number comes with what it is as an integer,
/// as the bits of a real number, and as a truth value.
pub enum GuestValue {
    Nil,
    Str(String),
    Data(Vec<u8>),
    Number { integer: i64, bits: u64, truth: bool },
    Other,
}

pub enum GuestView {
    Nil,
    Str(Seq<char>),
    Data(Seq<u8>),
    Number { integer: i64, bits: u64, truth: bool },
    Other,
}

impl View for GuestValue {
    type V = GuestView;

    open spec fn view(&self) -> GuestView {
        match self {
            GuestValue::Nil => GuestView::Nil,
            GuestValue::Str(s) => GuestView::Str(s@),
            GuestValue::Data(d) => GuestView::Data(d@),
            GuestValue::Number { integer, bits, truth } => GuestView::Number {
                integer: *integer,
                bits: *bits,
                truth: *truth,
            },
            GuestValue::Other => GuestView::Other,
        }
    }
}

/// The value that a guest object stands for: a number is an integer where that
/// loses nothing.
pub open spec fn guest_value_of(value: GuestView) -> Option<KcView> {
    match value {
        GuestView::Str(s) => Some(KcView::Str(s)),
        GuestView::Data(d) => Some(KcView::Data(d)),
        GuestView::Number { integer, bits, truth } => if doubles::equal(
            doubles::of_integer(integer as int) as u64,
            bits,
        ) {
            Some(KcView::Int(integer))
        } else {
            Some(KcView::Real(bits))
        },
        _ => None,
    }
}

pub fn guest_to_value(value: &GuestValue) -> (read: Option<KcValue>)
    ensures
        match read {
            Some(v) => guest_value_of(value@) == Some(v@),
            None => guest_value_of(value@) is None,
        },
{
    match value {
        GuestValue::Str(s) => Some(KcValue::Str(s.clone())),
        GuestValue::Data(d) => Some(KcValue::Data(copy_bytes(d))),
        GuestValue::Number { integer, bits, truth } => {
            if reals_equal(signed_to_real(*integer), *bits) {
                Some(KcValue::Int(*integer))
            } else {
                Some(KcValue::Real(*bits))
            }
        },
        _ => None,
    }
}

/// The truth value of a number; other objects are false.
pub fn guest_to_bool(value: &GuestValue) -> (truth: bool)
    ensures
        truth == (value@ matches GuestView::Number { integer, bits, truth: t } && t),
{
    match value {
        GuestValue::Number { integer, bits, truth } => *truth,
        _ => false,
    }
}

/// The names that are not attributes.
pub open spec fn is_directive(key: Seq<char>) -> bool {
    key.len() >= 2 && key[1] == '_' && (key[0] == 'r' || key[0] == 'm' || key[0] == 'u' || key[0]
        == 'v')
}

/// What has been read so far, with one entry more. A key that is not a text is
/// given as nothing.
pub open spec fn with_entry(
    parsed: ParsedView,
    key: Option<Seq<char>>,
    value: GuestView,
) -> ParsedView {
    match key {
        None => parsed,
        Some(k) => if value is Nil {
            parsed
        } else if k == "class"@ {
            match guest_value_of(value) {
                Some(KcView::Str(s)) => ParsedView { class: Some(s), ..parsed },
                _ => parsed,
            }
        } else if k == "v_Data"@ {
            ParsedView {
                data: match guest_value_of(value) {
                    Some(KcView::Data(d)) => Some(d),
                    Some(KcView::Str(s)) => Some(utf8::encode_utf8(s)),
                    _ => None,
                },
                ..parsed
            }
        } else if k == "r_Data"@ {
            ParsedView {
                return_data: value matches GuestView::Number { integer, bits, truth } && truth,
                ..parsed
            }
        } else if k == "r_Attributes"@ {
            ParsedView {
                return_attributes: value matches GuestView::Number { integer, bits, truth }
                    && truth,
                ..parsed
            }
        } else if k == "m_Limit"@ {
            ParsedView {
                limit: match guest_value_of(value) {
                    Some(KcView::Str(s)) => if s == "m_LimitAll"@ {
                        MatchLimit::All
                    } else {
                        MatchLimit::One
                    },
                    Some(KcView::Int(n)) => if n > 1 {
                        MatchLimit::Count(n as u64)
                    } else {
                        MatchLimit::One
                    },
                    _ => MatchLimit::One,
                },
                ..parsed
            }
        } else if is_directive(k) {
            parsed
        } else {
            match guest_value_of(value) {
                Some(v) => ParsedView { attrs: parsed.attrs.push((k, v)), ..parsed },
                None => parsed,
            }
        },
    }
}

/// A dictionary that has been read from its entries, in their order.
pub open spec fn parsed_dict(entries: Seq<(Option<Seq<char>>, GuestView)>) -> ParsedView
    decreases entries.len(),
{
    if entries.len() == 0 {
        ParsedView {
            class: None,
            attrs: Seq::empty(),
            data: None,
            return_data: false,
            return_attributes: false,
            limit: MatchLimit::One,
        }
    } else {
        with_entry(parsed_dict(entries.drop_last()), entries.last().0, entries.last().1)
    }
}

pub open spec fn guest_entry_views(entries: Seq<(Option<String>, GuestValue)>) -> Seq<
    (Option<Seq<char>>, GuestView),
> {
    entries.map_values(|e: (Option<String>, GuestValue)| (text_view(e.0), e.1@))
}

fn read_entry(parsed: &mut ParsedDict, key: &String, value: &GuestValue)
    ensures
        final(parsed)@ == with_entry(old(parsed)@, Some(key@), value@),
{
    if let GuestValue::Nil = value {
        return;
    }
    let name = chars_of(key.as_str());
    if same_text(key.as_str(), "class") {
        if let Some(KcValue::Str(s)) = guest_to_value(value) {
            parsed.class = Some(s);
        }
    } else if same_text(key.as_str(), "v_Data") {
        parsed.data = match guest_to_value(value) {
            Some(KcValue::Data(d)) => Some(d),
            Some(KcValue::Str(s)) => {
                let all = s.as_str().as_bytes();
                let bytes = bytes_between(all, 0, all.len());
                assert(bytes@ =~= all@);
                Some(bytes)
            },
            _ => None,
        };
    } else if same_text(key.as_str(), "r_Data") {
        parsed.return_data = guest_to_bool(value);
    } else if same_text(key.as_str(), "r_Attributes") {
        parsed.return_attributes = guest_to_bool(value);
    } else if same_text(key.as_str(), "m_Limit") {
        parsed.limit = match guest_to_value(value) {
            Some(KcValue::Str(s)) => if same_text(s.as_str(), "m_LimitAll") {
                MatchLimit::All
            } else {
                MatchLimit::One
            },
            Some(KcValue::Int(n)) => if n > 1 {
                MatchLimit::Count(n as u64)
            } else {
                MatchLimit::One
            },
            _ => MatchLimit::One,
        };
    } else if name.len() >= 2 && name[1] == '_' && (name[0] == 'r' || name[0] == 'm' || name[0]
        == 'u' || name[0] == 'v') {
    } else {
        if let Some(v) = guest_to_value(value) {
            let ghost before = parsed@.attrs;
            let ghost added = (key@, v@);
            parsed.attrs.push((key.clone(), v));
            assert(parsed@.attrs =~= before.push(added));
        }
    }
}

/// Reads the dictionary that a keychain function has been given.
pub fn parse_dict(entries: &Vec<(Option<String>, GuestValue)>) -> (parsed: ParsedDict)
    ensures
        parsed@ == parsed_dict(guest_entry_views(entries@)),
{
    let mut parsed = ParsedDict {
        class: None,
        attrs: Vec::new(),
        data: None,
        return_data: false,
        return_attributes: false,
        limit: MatchLimit::One,
    };
    assert(parsed@.attrs =~= Seq::empty());
    let mut i: usize = 0;
    while i < entries.len()
        invariant
            i <= entries@.len(),
            parsed@ == parsed_dict(guest_entry_views(entries@.take(i as int))),
        decreases entries@.len() - i,
    {
        proof {
            let views = guest_entry_views(entries@.take(i + 1));
            assert(views.drop_last() =~= guest_entry_views(entries@.take(i as int)));
            assert(views.last() == (text_view(entries@[i as int].0), entries@[i as int].1@));
        }
        if let Some(key) = &entries[i].0 {
            read_entry(&mut parsed, key, &entries[i].1);
        }
        i = i + 1;
    }
    assert(entries@.take(i as int) =~= entries@);
    parsed
}

/// The attributes that a query does not look at.
pub open spec fn is_ignored(key: Seq<char>) -> bool {
    ||| key == "agrp"@
    ||| key == "pdmn"@
    ||| key == "sync"@
    ||| key == "cdat"@
    ||| key == "mdat"@
    ||| key == "tomb"@
    ||| key == "musr"@
    ||| key == "sha1"@
}

fn ignores(key: &str) -> (yes: bool)
    ensures
        yes == is_ignored(key@),
{
    same_text(key, "agrp") || same_text(key, "pdmn") || same_text(key, "sync") || same_text(
        key,
        "cdat",
    ) || same_text(key, "mdat") || same_text(key, "tomb") || same_text(key, "musr") || same_text(
        key,
        "sha1",
    )
}

/// The item has an attribute that counts as the same as one of a query.
pub open spec fn attr_agrees(item: ItemView, key: Seq<char>, value: KcView) -> bool {
    is_ignored(key) || (attr_of(item.attrs, key) matches Some(stored) && loosely_equal(
        stored,
        value,
    ))
}

/// The item has the class of a query and agrees with all of its attributes.
pub open spec fn matches_query(item: ItemView, query: ParsedView) -> bool {
    &&& query.class == Some(item.class)
    &&& forall|i: int|
        0 <= i < query.attrs.len() ==> attr_agrees(
            item,
            (#[trigger] query.attrs[i]).0,
            query.attrs[i].1,
        )
}

pub fn item_matches(item: &KcItem, query: &ParsedDict) -> (matches: bool)
    ensures
        matches == matches_query(item@, query@),
{
    match &query.class {
        Some(class) => {
            if !same_text(class.as_str(), item.class.as_str()) {
                return false;
            }
        },
        None => {
            return false;
        },
    }
    let mut i: usize = 0;
    while i < query.attrs.len()
        invariant
            i <= query.attrs@.len(),
            query@.class == Some(item@.class),
            forall|j: int|
                0 <= j < i ==> attr_agrees(
                    item@,
                    (#[trigger] query@.attrs[j]).0,
                    query@.attrs[j].1,
                ),
        decreases query.attrs@.len() - i,
    {
        let key = query.attrs[i].0.as_str();
        assert(query@.attrs[i as int] == (key@, query.attrs@[i as int].1@));
        if !ignores(key) {
            match item.attr(key) {
                Some(stored) => {
                    if !stored.loosely_equals(&query.attrs[i].1) {
                        return false;
                    }
                },
                None => {
                    return false;
                },
            }
        }
        i = i + 1;
    }
    true
}

/// Two items agree on an attribute: neither has it, or both have the same value.
pub open spec fn share_attr(a: ItemView, b: ItemView, key: Seq<char>) -> bool {
    match (attr_of(a.attrs, key), attr_of(b.attrs, key)) {
        (None, None) => true,
        (Some(x), Some(y)) => loosely_equal(x, y),
        _ => false,
    }
}

/// Two items cannot both be in the keychain: they are passwords of the same kind
/// and agree on the attributes that tell such passwords apart.
pub open spec fn is_same_key(a: ItemView, b: ItemView) -> bool {
    &&& a.class == b.class
    &&& if a.class == "genp"@ {
        share_attr(a, b, "acct"@) && share_attr(a, b, "svce"@)
    } else if a.class == "inet"@ {
        share_attr(a, b, "acct"@) && share_attr(a, b, "sdmn"@) && share_attr(a, b, "srvr"@)
            && share_attr(a, b, "ptcl"@) && share_attr(a, b, "atyp"@) && share_attr(a, b, "port"@)
            && share_attr(a, b, "path"@)
    } else {
        false
    }
}

fn agree_on(a: &KcItem, b: &KcItem, key: &str) -> (agree: bool)
    ensures
        agree == share_attr(a@, b@, key@),
{
    match (a.attr(key), b.attr(key)) {
        (None, None) => true,
        (Some(x), Some(y)) => x.loosely_equals(y),
        _ => false,
    }
}

pub fn same_unique_key(a: &KcItem, b: &KcItem) -> (same: bool)
    ensures
        same == is_same_key(a@, b@),
{
    if !same_text(a.class.as_str(), b.class.as_str()) {
        return false;
    }
    if same_text(a.class.as_str(), "genp") {
        agree_on(a, b, "acct") && agree_on(a, b, "svce")
    } else if same_text(a.class.as_str(), "inet") {
        agree_on(a, b, "acct") && agree_on(a, b, "sdmn") && agree_on(a, b, "srvr") && agree_on(
            a,
            b,
            "ptcl",
        ) && agree_on(a, b, "atyp") && agree_on(a, b, "port") && agree_on(a, b, "path")
    } else {
        false
    }
}

/// Whether two items have the same key does not depend on their order.
pub proof fn law_same_key_is_symmetric(a: ItemView, b: ItemView)
    ensures
        is_same_key(a, b) == is_same_key(b, a),
{
}

pub open spec fn item_views(items: Seq<KcItem>) -> Seq<ItemView> {
    items.map_values(|i: KcItem| i@)
}

/// The attributes that a property list holds: those of unknown kinds are left
/// out.
pub open spec fn read_attrs(entries: Seq<(Seq<char>, PlistView)>) -> Seq<(Seq<char>, KcView)>
    decreases entries.len(),
{
    if entries.len() == 0 {
        Seq::empty()
    } else {
        let rest = read_attrs(entries.drop_last());
        match from_plist_of(entries.last().1) {
            Some(v) => with_attr(rest, entries.last().0, v),
            None => rest,
        }
    }
}

/// The item that an entry of a property list holds.
pub open spec fn read_item(entry: PlistView) -> Option<ItemView> {
    match plist_value::value_of(entry, "class"@) {
        Some(PlistView::Str(class)) => Some(
            ItemView {
                class,
                attrs: match plist_value::value_of(entry, "attrs"@) {
                    Some(PlistView::Dictionary(attrs)) => read_attrs(attrs),
                    _ => Seq::empty(),
                },
                data: match plist_value::value_of(entry, "data"@) {
                    Some(PlistView::Data(d)) => Some(d),
                    _ => None,
                },
            },
        ),
        _ => None,
    }
}

pub open spec fn read_items(entries: Seq<PlistView>) -> Seq<ItemView>
    decreases entries.len(),
{
    if entries.len() == 0 {
        Seq::empty()
    } else {
        let rest = read_items(entries.drop_last());
        match read_item(entries.last()) {
            Some(item) => rest.push(item),
            None => rest,
        }
    }
}

/// The items of a keychain file; none where it is no property list or holds no
/// items.
pub open spec fn items_in(document: Option<PlistView>) -> Seq<ItemView> {
    match document {
        Some(root) => match plist_value::value_of(root, "items"@) {
            Some(PlistView::Array(entries)) => read_items(entries),
            _ => Seq::empty(),
        },
        None => Seq::empty(),
    }
}

fn load_attrs(value: &PlistValue) -> (attrs: Vec<(String, KcValue)>)
    ensures
        attr_views(attrs@) == match value@ {
            PlistView::Dictionary(entries) => read_attrs(entries),
            _ => Seq::empty(),
        },
{
    let mut out: Vec<(String, KcValue)> = Vec::new();
    assert(attr_views(out@) =~= Seq::empty());
    if let PlistValue::Dictionary(entries) = value {
        let ghost views = plist_value::entry_views(entries@);
        proof {
            plist_value::lemma_entry_views(entries@);
        }
        let mut i: usize = 0;
        while i < entries.len()
            invariant
                i <= entries@.len(),
                views.len() == entries@.len(),
                forall|k: int|
                    0 <= k < entries@.len() ==> #[trigger] views[k] == (
                        entries@[k].0@,
                        entries@[k].1@,
                    ),
                attr_views(out@) == read_attrs(views.take(i as int)),
            decreases entries@.len() - i,
        {
            assert(views.take(i + 1).drop_last() =~= views.take(i as int));
            assert(views.take(i + 1).last() == views[i as int]);
            if let Some(v) = KcValue::from_plist(&entries[i].1) {
                put_attr(&mut out, entries[i].0.as_str(), v);
            }
            i = i + 1;
        }
        assert(views.take(i as int) =~= views);
    }
    out
}

fn load_item(entry: &PlistValue) -> (item: Option<KcItem>)
    ensures
        match item {
            Some(i) => read_item(entry@) == Some(i@),
            None => read_item(entry@) is None,
        },
{
    let class = match entry.get("class") {
        Some(value) => match value.as_str() {
            Some(class) => class.clone(),
            None => {
                return None;
            },
        },
        None => {
            return None;
        },
    };
    let data: Option<Vec<u8>> = match entry.get("data") {
        Some(value) => match value.as_data() {
            Some(bytes) => Some(copy_bytes(bytes)),
            None => None,
        },
        None => None,
    };
    let attrs: Vec<(String, KcValue)> = match entry.get("attrs") {
        Some(value) => load_attrs(value),
        None => Vec::new(),
    };
    assert(attr_views(attrs@) =~= read_item(entry@)->0.attrs);
    Some(KcItem { class, attrs, data })
}

/// The items that a property list holds.
pub fn items_of_document(document: &Option<PlistValue>) -> (items: Vec<KcItem>)
    ensures
        item_views(items@) == items_in(
            match document {
                Some(d) => Some(d@),
                None => None,
            },
        ),
{
    let mut out: Vec<KcItem> = Vec::new();
    assert(item_views(out@) =~= Seq::empty());
    if let Some(root) = document {
        if let Some(list) = root.get("items") {
            if let Some(entries) = list.as_array() {
                let ghost views = plist_value::plist_views(entries@);
                proof {
                    plist_value::lemma_plist_views(entries@);
                }
                let mut i: usize = 0;
                while i < entries.len()
                    invariant
                        i <= entries@.len(),
                        views.len() == entries@.len(),
                        forall|k: int|
                            0 <= k < entries@.len() ==> #[trigger] views[k] == entries@[k]@,
                        item_views(out@) == read_items(views.take(i as int)),
                    decreases entries@.len() - i,
                {
                    assert(views.take(i + 1).drop_last() =~= views.take(i as int));
                    assert(views.take(i + 1).last() == views[i as int]);
                    if let Some(item) = load_item(&entries[i]) {
                        let ghost before = item_views(out@);
                        let ghost added = item@;
                        out.push(item);
                        assert(item_views(out@) =~= before.push(added));
                    }
                    i = i + 1;
                }
                assert(views.take(i as int) =~= views);
            }
        }
    }
    out
}

/// The items of a keychain file, given by its bytes; none where there is no
/// file.
pub fn load_items(file: &Option<Vec<u8>>) -> (items: Vec<KcItem>)
    ensures
        item_views(items@) == stored_items(data_view(*file)),
{
    match file {
        Some(bytes) => {
            let document = parse_plist(bytes.as_slice());
            items_of_document(&document)
        },
        None => {
            let items: Vec<KcItem> = Vec::new();
            assert(item_views(items@) =~= Seq::empty());
            items
        },
    }
}

/// The items of a keychain file.
pub open spec fn stored_items(file: Option<Seq<u8>>) -> Seq<ItemView> {
    match file {
        Some(bytes) => items_in(plist_value::readable_document(bytes)),
        None => Seq::empty(),
    }
}

/// The entries of attributes in a property list.
pub open spec fn attr_entries(attrs: Seq<(Seq<char>, KcView)>) -> Seq<(Seq<char>, PlistView)> {
    attrs.map_values(|e: (Seq<char>, KcView)| (e.0, plist_of(e.1)))
}

/// The entry of an item in a property list.
pub open spec fn item_entry(item: ItemView) -> PlistView {
    let attrs = attr_entries(with_attrs(Seq::empty(), item.attrs));
    let entries = seq![
        ("class"@, PlistView::Str(item.class)),
        ("attrs"@, PlistView::Dictionary(attrs)),
    ];
    PlistView::Dictionary(
        match item.data {
            Some(d) => entries.push(("data"@, PlistView::Data(d))),
            None => entries,
        },
    )
}

/// The property list of a keychain.
pub open spec fn document_of(items: Seq<ItemView>) -> PlistView {
    PlistView::Dictionary(
        seq![
            ("version"@, PlistView::Integer(1)),
            ("items"@, PlistView::Array(items.map_values(|i: ItemView| item_entry(i)))),
        ],
    )
}

proof fn lemma_with_attr_distinct(attrs: Seq<(Seq<char>, KcView)>, key: Seq<char>, value: KcView)
    requires
        distinct_attrs(attrs),
    ensures
        distinct_attrs(with_attr(attrs, key, value)),
{
    let index = first_with(attrs, key);
    lemma_first_with(attrs, key);
    lemma_attr_at(attrs, key, index);
}

spec fn first_with(attrs: Seq<(Seq<char>, KcView)>, key: Seq<char>) -> int
    decreases attrs.len(),
{
    if attrs.len() == 0 || attrs[0].0 == key {
        0
    } else {
        1 + first_with(attrs.drop_first(), key)
    }
}

proof fn lemma_first_with(attrs: Seq<(Seq<char>, KcView)>, key: Seq<char>)
    ensures
        0 <= first_with(attrs, key) <= attrs.len(),
        first_with(attrs, key) < attrs.len() ==> attrs[first_with(attrs, key)].0 == key,
        forall|i: int| 0 <= i < first_with(attrs, key) ==> (#[trigger] attrs[i]).0 != key,
    decreases attrs.len(),
{
    if attrs.len() > 0 && attrs[0].0 != key {
        let rest = attrs.drop_first();
        lemma_first_with(rest, key);
        assert forall|i: int| 0 <= i < first_with(attrs, key) implies (#[trigger] attrs[i]).0
            != key by {
            if i > 0 {
                assert(rest[i - 1].0 != key);
            }
        }
    }
}

proof fn lemma_with_attrs_distinct(
    attrs: Seq<(Seq<char>, KcView)>,
    more: Seq<(Seq<char>, KcView)>,
)
    requires
        distinct_attrs(attrs),
    ensures
        distinct_attrs(with_attrs(attrs, more)),
    decreases more.len(),
{
    if more.len() > 0 {
        lemma_with_attrs_distinct(attrs, more.drop_last());
        lemma_with_attr_distinct(
            with_attrs(attrs, more.drop_last()),
            more.last().0,
            more.last().1,
        );
    }
}

/// Setting distinct attributes one after the other gives the list itself.
proof fn lemma_with_attrs_of_distinct(attrs: Seq<(Seq<char>, KcView)>)
    requires
        distinct_attrs(attrs),
    ensures
        with_attrs(Seq::empty(), attrs) == attrs,
    decreases attrs.len(),
{
    if attrs.len() > 0 {
        let rest = attrs.drop_last();
        lemma_with_attrs_of_distinct(rest);
        lemma_attr_at(rest, attrs.last().0, rest.len() as int);
        assert(rest.push(attrs.last()) =~= attrs);
    }
}

fn normalised(attrs: &Vec<(String, KcValue)>) -> (out: Vec<(String, KcValue)>)
    ensures
        attr_views(out@) == with_attrs(Seq::empty(), attr_views(attrs@)),
        distinct_attrs(attr_views(out@)),
{
    let mut out: Vec<(String, KcValue)> = Vec::new();
    assert(attr_views(out@) =~= Seq::empty());
    let mut i: usize = 0;
    let ghost views = attr_views(attrs@);
    while i < attrs.len()
        invariant
            i <= attrs@.len(),
            views == attr_views(attrs@),
            attr_views(out@) == with_attrs(Seq::empty(), views.take(i as int)),
        decreases attrs@.len() - i,
    {
        assert(views.take(i + 1).drop_last() =~= views.take(i as int));
        assert(views.take(i + 1).last() == (attrs@[i as int].0@, attrs@[i as int].1@));
        put_attr(&mut out, attrs[i].0.as_str(), attrs[i].1.copy());
        i = i + 1;
    }
    assert(views.take(i as int) =~= views);
    proof {
        lemma_with_attrs_distinct(Seq::empty(), views);
    }
    out
}

fn attrs_value(attrs: &Vec<(String, KcValue)>) -> (value: plist::Value)
    ensures
        plist_value::plist_contents(value) == PlistView::Dictionary(
            attr_entries(with_attrs(Seq::empty(), attr_views(attrs@))),
        ),
{
    let distinct = normalised(attrs);
    let mut entries: Vec<(String, plist::Value)> = Vec::new();
    let mut i: usize = 0;
    let ghost views = attr_views(distinct@);
    while i < distinct.len()
        invariant
            i <= distinct@.len(),
            views == attr_views(distinct@),
            entries@.len() == i,
            forall|k: int|
                0 <= k < i ==> (#[trigger] entries@[k]).0@ == views[k].0
                    && plist_value::plist_contents(entries@[k].1) == plist_of(views[k].1),
        decreases distinct@.len() - i,
    {
        assert(views[i as int] == (distinct@[i as int].0@, distinct@[i as int].1@));
        entries.push((distinct[i].0.clone(), distinct[i].1.to_plist()));
        i = i + 1;
    }
    proof {
        assert forall|a: int, b: int| 0 <= a < b < entries@.len() implies (
        #[trigger] entries@[a]).0@ != (#[trigger] entries@[b]).0@ by {
            assert(views[a].0 != views[b].0);
        }
        assert(plist_value::entry_contents(entries@) =~= attr_entries(views));
    }
    put_together(Parts::Dictionary(entries))
}

proof fn lemma_keys_differ()
    ensures
        "class"@ != "attrs"@,
        "class"@ != "data"@,
        "attrs"@ != "data"@,
        "version"@ != "items"@,
{
    reveal_strlit("class");
    reveal_strlit("attrs");
    reveal_strlit("data");
    reveal_strlit("version");
    reveal_strlit("items");
    assert("class"@[0] == 'c');
    assert("attrs"@[0] == 'a');
    assert("data"@[0] == 'd');
    assert("version"@[0] == 'v');
    assert("items"@[0] == 'i');
}

fn item_value(item: &KcItem) -> (value: plist::Value)
    ensures
        plist_value::plist_contents(value) == item_entry(item@),
{
    let mut entries: Vec<(String, plist::Value)> = Vec::new();
    entries.push(("class".to_owned(), put_together(Parts::Str(item.class.clone()))));
    entries.push(("attrs".to_owned(), attrs_value(&item.attrs)));
    if let Some(d) = &item.data {
        entries.push(("data".to_owned(), put_together(Parts::Data(copy_bytes(d)))));
    }
    proof {
        lemma_keys_differ();
        assert(item_entry(item@)->Dictionary_0 =~= plist_value::entry_contents(entries@));
    }
    put_together(Parts::Dictionary(entries))
}

/// The property list of a keychain as a value of the `plist` crate.
pub fn document_value(items: &Vec<KcItem>) -> (value: plist::Value)
    ensures
        plist_value::plist_contents(value) == document_of(item_views(items@)),
{
    let mut list: Vec<plist::Value> = Vec::new();
    let mut i: usize = 0;
    while i < items.len()
        invariant
            i <= items@.len(),
            list@.len() == i,
            forall|k: int|
                0 <= k < i ==> plist_value::plist_contents(#[trigger] list@[k]) == item_entry(
                    items@[k]@,
                ),
        decreases items@.len() - i,
    {
        list.push(item_value(&items[i]));
        i = i + 1;
    }
    let ghost entries_view = item_views(items@).map_values(|i: ItemView| item_entry(i));
    assert(plist_value::all_contents(list@) =~= entries_view);
    let mut entries: Vec<(String, plist::Value)> = Vec::new();
    entries.push(("version".to_owned(), put_together(Parts::Integer(1))));
    entries.push(("items".to_owned(), put_together(Parts::Array(list))));
    proof {
        lemma_keys_differ();
        assert(document_of(item_views(items@))->Dictionary_0 =~= plist_value::entry_contents(
            entries@,
        ));
    }
    put_together(Parts::Dictionary(entries))
}

/// The bytes of a keychain file with some items; nothing where they cannot be
/// written.
pub fn save_items(items: &Vec<KcItem>) -> (file: Option<Vec<u8>>)
    ensures
        is_file_of(data_view(file), item_views(items@)),
{
    let document = document_value(items);
    proof {
        lemma_document_is_dateless(item_views(items@));
        if all_storable(item_views(items@)) {
            lemma_document_survives(item_views(items@));
        }
    }
    write_plist(&document)
}

/// A file with some items, if it could be written. It can be, and the same property
/// list is read from it, unless an attribute is not a number.
pub open spec fn is_file_of(file: Option<Seq<u8>>, items: Seq<ItemView>) -> bool {
    &&& file == plist_value::plist_xml(document_of(items))
    &&& all_storable(items) ==> file is Some && plist_value::readable_document(file->0) == Some(
        document_of(items),
    )
}

/// A value counts as the same as itself, unless it is not a number.
pub open spec fn equals_itself(value: KcView) -> bool {
    match value {
        KcView::Real(bits) => !doubles::is_nan(bits),
        _ => true,
    }
}

/// All numbers in the attributes are numbers.
pub open spec fn are_storable(attrs: Seq<(Seq<char>, KcView)>) -> bool {
    forall|i: int| 0 <= i < attrs.len() ==> equals_itself((#[trigger] attrs[i]).1)
}

/// All numbers in the attributes of some items are numbers.
pub open spec fn all_storable(items: Seq<ItemView>) -> bool {
    forall|i: int| 0 <= i < items.len() ==> are_storable((#[trigger] items[i]).attrs)
}

proof fn lemma_with_attr_storable(
    attrs: Seq<(Seq<char>, KcView)>,
    key: Seq<char>,
    value: KcView,
)
    requires
        are_storable(attrs),
        equals_itself(value),
    ensures
        are_storable(with_attr(attrs, key, value)),
    decreases attrs.len(),
{
    if attrs.len() > 0 && attrs[0].0 != key {
        let rest = attrs.drop_first();
        assert forall|i: int| 0 <= i < rest.len() implies equals_itself(
            (#[trigger] rest[i]).1,
        ) by {
            assert(equals_itself(attrs[i + 1].1));
        }
        lemma_with_attr_storable(rest, key, value);
        let after = with_attr(attrs, key, value);
        assert forall|i: int| 0 <= i < after.len() implies equals_itself(
            (#[trigger] after[i]).1,
        ) by {
            if i == 0 {
                assert(equals_itself(attrs[0].1));
            } else {
                assert(equals_itself(with_attr(rest, key, value)[i - 1].1));
            }
        }
    }
}

proof fn lemma_with_attrs_storable(
    attrs: Seq<(Seq<char>, KcView)>,
    more: Seq<(Seq<char>, KcView)>,
)
    requires
        are_storable(attrs),
        are_storable(more),
    ensures
        are_storable(with_attrs(attrs, more)),
    decreases more.len(),
{
    if more.len() > 0 {
        let front = more.drop_last();
        assert forall|i: int| 0 <= i < front.len() implies equals_itself(
            (#[trigger] front[i]).1,
        ) by {
            assert(equals_itself(more[i].1));
        }
        lemma_with_attrs_storable(attrs, front);
        assert(equals_itself(more[more.len() - 1].1));
        lemma_with_attr_storable(with_attrs(attrs, front), more.last().0, more.last().1);
    }
}

proof fn lemma_item_survives(item: ItemView)
    requires
        are_storable(item.attrs),
    ensures
        plist_value::survives_xml(item_entry(item)),
{
    lemma_keys_differ();
    let attrs = with_attrs(Seq::empty(), item.attrs);
    lemma_with_attrs_distinct(Seq::empty(), item.attrs);
    lemma_with_attrs_storable(Seq::empty(), item.attrs);
    let entries = attr_entries(attrs);
    assert forall|i: int| 0 <= i < entries.len() implies plist_value::survives_xml(
        (#[trigger] entries[i]).1,
    ) by {
        assert(equals_itself(attrs[i].1));
    }
    assert forall|i: int, j: int| 0 <= i < j < entries.len() implies (
    #[trigger] entries[i]).0 != (#[trigger] entries[j]).0 by {
        assert(attrs[i].0 != attrs[j].0);
    }
    assert(plist_value::survives_xml(PlistView::Dictionary(entries)));
    let parts = item_entry(item)->Dictionary_0;
    assert forall|i: int| 0 <= i < parts.len() implies plist_value::survives_xml(
        (#[trigger] parts[i]).1,
    ) by {
        assert(i == 0 || i == 1 || i == 2);
    }
}

/// A keychain has no dates.
proof fn lemma_document_is_dateless(items: Seq<ItemView>)
    ensures
        plist_value::is_dateless(document_of(items)),
{
    let list = items.map_values(|i: ItemView| item_entry(i));
    assert forall|i: int| 0 <= i < list.len() implies plist_value::is_dateless(
        #[trigger] list[i],
    ) by {
        let attrs = with_attrs(Seq::empty(), items[i].attrs);
        let values = attr_entries(attrs);
        assert forall|k: int| 0 <= k < values.len() implies plist_value::is_dateless(
            (#[trigger] values[k]).1,
        ) by {
            assert(values[k].1 == plist_of(attrs[k].1));
        }
        assert(plist_value::is_dateless(PlistView::Dictionary(values)));
        let entries = item_entry(items[i])->Dictionary_0;
        assert forall|k: int| 0 <= k < entries.len() implies plist_value::is_dateless(
            (#[trigger] entries[k]).1,
        ) by {
            assert(k == 0 || k == 1 || k == 2);
        }
    }
    assert(plist_value::is_dateless(PlistView::Array(list)));
    let entries = document_of(items)->Dictionary_0;
    assert forall|i: int| 0 <= i < entries.len() implies plist_value::is_dateless(
        (#[trigger] entries[i]).1,
    ) by {
        assert(i == 0 || i == 1);
    }
}

/// A keychain is held fully by its file.
proof fn lemma_document_survives(items: Seq<ItemView>)
    requires
        all_storable(items),
    ensures
        plist_value::survives_xml(document_of(items)),
{
    lemma_keys_differ();
    let list = items.map_values(|i: ItemView| item_entry(i));
    assert forall|i: int| 0 <= i < list.len() implies plist_value::survives_xml(
        #[trigger] list[i],
    ) by {
        assert(are_storable(items[i].attrs));
        lemma_item_survives(items[i]);
    }
    assert(plist_value::survives_xml(PlistView::Array(list)));
    let entries = document_of(items)->Dictionary_0;
    assert forall|i: int| 0 <= i < entries.len() implies plist_value::survives_xml(
        (#[trigger] entries[i]).1,
    ) by {
        assert(i == 0 || i == 1);
    }
}

proof fn lemma_read_attrs(attrs: Seq<(Seq<char>, KcView)>)
    requires
        distinct_attrs(attrs),
    ensures
        read_attrs(attr_entries(attrs)) == attrs,
    decreases attrs.len(),
{
    let entries = attr_entries(attrs);
    if attrs.len() > 0 {
        let rest = attrs.drop_last();
        assert(entries.drop_last() =~= attr_entries(rest));
        lemma_read_attrs(rest);
        law_value_round_trip(attrs.last().1);
        lemma_attr_at(rest, attrs.last().0, rest.len() as int);
        assert(rest.push(attrs.last()) =~= attrs);
    }
}

proof fn lemma_read_item(item: ItemView)
    requires
        distinct_attrs(item.attrs),
    ensures
        read_item(item_entry(item)) == Some(item),
{
    lemma_keys_differ();
    lemma_with_attrs_of_distinct(item.attrs);
    lemma_read_attrs(item.attrs);
    let entries = item_entry(item)->Dictionary_0;
    reveal_with_fuel(plist_value::entry_of, 4);
    assert(entries[0].0 == "class"@);
    assert(entries[1].0 == "attrs"@);
    let second = entries.drop_first();
    assert(second[0] == entries[1]);
    if item.data is Some {
        assert(second.drop_first()[0] == entries[2]);
        assert(second.drop_first().len() == 1);
    } else {
        assert(second.drop_first().len() == 0);
    }
}

proof fn lemma_read_items(items: Seq<ItemView>)
    requires
        forall|i: int| 0 <= i < items.len() ==> distinct_attrs((#[trigger] items[i]).attrs),
    ensures
        read_items(items.map_values(|i: ItemView| item_entry(i))) == items,
    decreases items.len(),
{
    let entries = items.map_values(|i: ItemView| item_entry(i));
    if items.len() > 0 {
        let rest = items.drop_last();
        assert(entries.drop_last() =~= rest.map_values(|i: ItemView| item_entry(i)));
        assert forall|i: int| 0 <= i < rest.len() implies distinct_attrs(
            (#[trigger] rest[i]).attrs,
        ) by {
            assert(distinct_attrs(items[i].attrs));
        }
        lemma_read_items(rest);
        assert(distinct_attrs(items[items.len() - 1].attrs));
        lemma_read_item(items.last());
        assert(rest.push(items.last()) =~= items);
    }
}

/// A keychain that is laid out as a property list and read from it has the same
/// items.
pub proof fn law_document_round_trip(items: Seq<ItemView>)
    requires
        forall|i: int| 0 <= i < items.len() ==> distinct_attrs((#[trigger] items[i]).attrs),
    ensures
        items_in(Some(document_of(items))) == items,
{
    lemma_keys_differ();
    lemma_read_items(items);
    reveal_with_fuel(plist_value::entry_of, 3);
    let entries = document_of(items)->Dictionary_0;
    assert(entries.drop_first()[0] == entries[1]);
}

/// The items that are loaded have distinct attributes, so that a keychain is
/// written and read without a loss.
pub proof fn law_loaded_attrs_are_distinct(entries: Seq<PlistView>)
    ensures
        forall|i: int|
            0 <= i < read_items(entries).len() ==> distinct_attrs(
                (#[trigger] read_items(entries)[i]).attrs,
            ),
    decreases entries.len(),
{
    if entries.len() > 0 {
        law_loaded_attrs_are_distinct(entries.drop_last());
        if let Some(PlistView::Dictionary(attrs)) = plist_value::value_of(
            entries.last(),
            "attrs"@,
        ) {
            lemma_read_attrs_distinct(attrs);
        }
    }
}

proof fn lemma_read_attrs_distinct(entries: Seq<(Seq<char>, PlistView)>)
    ensures
        distinct_attrs(read_attrs(entries)),
    decreases entries.len(),
{
    if entries.len() > 0 {
        lemma_read_attrs_distinct(entries.drop_last());
        if let Some(v) = from_plist_of(entries.last().1) {
            lemma_with_attr_distinct(read_attrs(entries.drop_last()), entries.last().0, v);
        }
    }
}

/// What is handed out of an item: nothing, its attributes, or its data.
pub enum KcResult {
    Nothing,
    Attributes(Vec<(String, KcValue)>),
    Data(Vec<u8>),
}

pub enum ResultView {
    Nothing,
    Attributes(Seq<(Seq<char>, KcView)>),
    Data(Seq<u8>),
}

impl View for KcResult {
    type V = ResultView;

    open spec fn view(&self) -> ResultView {
        match self {
            KcResult::Nothing => ResultView::Nothing,
            KcResult::Attributes(attrs) => ResultView::Attributes(attr_views(attrs@)),
            KcResult::Data(d) => ResultView::Data(d@),
        }
    }
}

pub open spec fn data_or_empty(data: Option<Seq<u8>>) -> Seq<u8> {
    match data {
        Some(d) => d,
        None => Seq::empty(),
    }
}

/// What a query asks for of an item. The data is one of the attributes if both
/// are asked for.
pub open spec fn result_of(item: ItemView, query: ParsedView) -> ResultView {
    if query.return_attributes {
        if query.return_data {
            ResultView::Attributes(
                item.attrs.push(("v_Data"@, KcView::Data(data_or_empty(item.data)))),
            )
        } else {
            ResultView::Attributes(item.attrs)
        }
    } else if query.return_data {
        ResultView::Data(data_or_empty(item.data))
    } else {
        ResultView::Nothing
    }
}

fn item_data(item: &KcItem) -> (data: Vec<u8>)
    ensures
        data@ == data_or_empty(item@.data),
{
    match &item.data {
        Some(d) => copy_bytes(d),
        None => {
            let none: Vec<u8> = Vec::new();
            assert(none@ =~= Seq::empty());
            none
        },
    }
}

fn copy_attrs(attrs: &Vec<(String, KcValue)>) -> (copy: Vec<(String, KcValue)>)
    ensures
        attr_views(copy@) == attr_views(attrs@),
{
    let mut out: Vec<(String, KcValue)> = Vec::new();
    let mut i: usize = 0;
    while i < attrs.len()
        invariant
            i <= attrs@.len(),
            out@.len() == i,
            forall|k: int|
                0 <= k < i ==> (#[trigger] out@[k]).0@ == attrs@[k].0@ && out@[k].1@
                    == attrs@[k].1@,
        decreases attrs@.len() - i,
    {
        out.push((attrs[i].0.clone(), attrs[i].1.copy()));
        i = i + 1;
    }
    assert(attr_views(out@) =~= attr_views(attrs@));
    out
}

/// What a query asks for of an item.
pub fn build_result(item: &KcItem, query: &ParsedDict) -> (result: KcResult)
    ensures
        result@ == result_of(item@, query@),
{
    if query.return_attributes {
        let mut attrs = copy_attrs(&item.attrs);
        if query.return_data {
            let data = item_data(item);
            let ghost before = attr_views(attrs@);
            let ghost added = ("v_Data"@, KcView::Data(data@));
            attrs.push(("v_Data".to_owned(), KcValue::Data(data)));
            assert(attr_views(attrs@) =~= before.push(added));
        }
        KcResult::Attributes(attrs)
    } else if query.return_data {
        KcResult::Data(item_data(item))
    } else {
        KcResult::Nothing
    }
}

/// What a keychain function hands out: one result or a list of them.
pub enum KcAnswer {
    One(KcResult),
    Many(Vec<KcResult>),
}

pub enum AnswerView {
    One(ResultView),
    Many(Seq<ResultView>),
}

pub open spec fn result_views(results: Seq<KcResult>) -> Seq<ResultView> {
    results.map_values(|r: KcResult| r@)
}

impl View for KcAnswer {
    type V = AnswerView;

    open spec fn view(&self) -> AnswerView {
        match self {
            KcAnswer::One(result) => AnswerView::One(result@),
            KcAnswer::Many(results) => AnswerView::Many(result_views(results@)),
        }
    }
}

pub open spec fn answer_view(answer: Option<KcAnswer>) -> Option<AnswerView> {
    match answer {
        Some(a) => Some(a@),
        None => None,
    }
}

/// The items that a query matches, or those that it does not match.
pub open spec fn selected(items: Seq<ItemView>, query: ParsedView, matching: bool) -> Seq<ItemView>
    decreases items.len(),
{
    if items.len() == 0 {
        Seq::empty()
    } else {
        let rest = selected(items.drop_last(), query, matching);
        if matches_query(items.last(), query) == matching {
            rest.push(items.last())
        } else {
            rest
        }
    }
}

/// How many items a query hands out at most.
pub open spec fn limited(limit: MatchLimit, found: nat) -> nat {
    match limit {
        MatchLimit::One => 1,
        MatchLimit::All => found,
        MatchLimit::Count(n) => if n < found {
            n as nat
        } else {
            found
        },
    }
}

/// The status of a search, and what it hands out where a result is wanted.
pub open spec fn search_outcome(items: Seq<ItemView>, query: ParsedView, wanted: bool) -> (
    i32,
    Option<AnswerView>,
) {
    let found = selected(items, query, true);
    if query.class is None {
        (ERR_SEC_PARAM, None)
    } else if found.len() == 0 {
        (ERR_SEC_ITEM_NOT_FOUND, None)
    } else if !(wanted && (query.return_data || query.return_attributes)) {
        (ERR_SEC_SUCCESS, None)
    } else if query.limit == MatchLimit::One {
        (ERR_SEC_SUCCESS, Some(AnswerView::One(result_of(found[0], query))))
    } else {
        (
            ERR_SEC_SUCCESS,
            Some(
                AnswerView::Many(
                    Seq::new(
                        limited(query.limit, found.len()),
                        |i: int| result_of(found[i], query),
                    ),
                ),
            ),
        )
    }
}

/// The indices of the items that a query matches.
pub open spec fn matching_indices(items: Seq<ItemView>, query: ParsedView) -> Seq<int>
    decreases items.len(),
{
    if items.len() == 0 {
        Seq::empty()
    } else {
        let rest = matching_indices(items.drop_last(), query);
        if matches_query(items.last(), query) {
            rest.push(items.len() - 1)
        } else {
            rest
        }
    }
}

proof fn lemma_matching_indices(items: Seq<ItemView>, query: ParsedView)
    ensures
        matching_indices(items, query).len() == selected(items, query, true).len(),
        forall|k: int|
            #![trigger matching_indices(items, query)[k]]
            0 <= k < matching_indices(items, query).len() ==> {
                &&& 0 <= matching_indices(items, query)[k] < items.len()
                &&& items[matching_indices(items, query)[k]] == selected(items, query, true)[k]
                &&& matches_query(items[matching_indices(items, query)[k]], query)
            },
        forall|i: int|
            0 <= i < items.len() && matches_query(#[trigger] items[i], query) ==> matching_indices(
                items,
                query,
            ).contains(i),
    decreases items.len(),
{
    if items.len() > 0 {
        let front = items.drop_last();
        lemma_matching_indices(front, query);
        let rest = matching_indices(front, query);
        let all = matching_indices(items, query);
        assert forall|k: int| #![trigger all[k]] 0 <= k < all.len() implies {
            &&& 0 <= all[k] < items.len()
            &&& items[all[k]] == selected(items, query, true)[k]
            &&& matches_query(items[all[k]], query)
        } by {
            if k < rest.len() {
                assert(all[k] == rest[k]);
                assert(front[rest[k]] == items[rest[k]]);
            }
        }
        assert forall|i: int|
            0 <= i < items.len() && matches_query(#[trigger] items[i], query) implies all.contains(
            i,
        ) by {
            if i < front.len() {
                assert(front[i] == items[i]);
                assert(rest.contains(i));
                let k = choose|k: int| 0 <= k < rest.len() && rest[k] == i;
                assert(all[k] == i);
            } else {
                assert(all[all.len() - 1] == i);
            }
        }
    }
}

fn find_matching(items: &Vec<KcItem>, query: &ParsedDict) -> (found: Vec<usize>)
    ensures
        found@.len() == matching_indices(item_views(items@), query@).len(),
        forall|k: int|
            0 <= k < found@.len() ==> #[trigger] found@[k] == matching_indices(
                item_views(items@),
                query@,
            )[k],
{
    let mut out: Vec<usize> = Vec::new();
    let mut i: usize = 0;
    let ghost views = item_views(items@);
    while i < items.len()
        invariant
            i <= items@.len(),
            views == item_views(items@),
            out@.len() == matching_indices(views.take(i as int), query@).len(),
            forall|k: int|
                0 <= k < out@.len() ==> #[trigger] out@[k] == matching_indices(
                    views.take(i as int),
                    query@,
                )[k],
        decreases items@.len() - i,
    {
        assert(views.take(i + 1).drop_last() =~= views.take(i as int));
        assert(views.take(i + 1).last() == items@[i as int]@);
        if item_matches(&items[i], query) {
            out.push(i);
        }
        i = i + 1;
    }
    assert(views.take(i as int) =~= views);
    out
}

/// Searches some items: the status, and what is handed out.
pub fn search_items(items: &Vec<KcItem>, query: &ParsedDict, wanted: bool) -> (r: (
    i32,
    Option<KcAnswer>,
))
    ensures
        (r.0, answer_view(r.1)) == search_outcome(item_views(items@), query@, wanted),
{
    if query.class.is_none() {
        return (ERR_SEC_PARAM, None);
    }
    let found = find_matching(items, query);
    let ghost views = item_views(items@);
    let ghost hits = selected(views, query@, true);
    proof {
        lemma_matching_indices(views, query@);
    }
    if found.len() == 0 {
        return (ERR_SEC_ITEM_NOT_FOUND, None);
    }
    if !wanted || !(query.return_data || query.return_attributes) {
        return (ERR_SEC_SUCCESS, None);
    }
    assert(found@[0] == matching_indices(views, query@)[0]);
    if query.limit == MatchLimit::One {
        assert(views[found@[0] as int] == items@[found@[0] as int]@);
        let result = build_result(&items[found[0]], query);
        return (ERR_SEC_SUCCESS, Some(KcAnswer::One(result)));
    }
    let total: usize = match query.limit {
        MatchLimit::Count(n) => if n < found.len() as u64 {
            n as usize
        } else {
            found.len()
        },
        _ => found.len(),
    };
    let mut results: Vec<KcResult> = Vec::new();
    let mut i: usize = 0;
    while i < total
        invariant
            i <= total <= found@.len(),
            views == item_views(items@),
            hits == selected(views, query@, true),
            found@.len() == hits.len(),
            forall|k: int|
                0 <= k < found@.len() ==> (#[trigger] found@[k]) < items@.len()
                    && items@[found@[k] as int]@ == hits[k],
            results@.len() == i,
            forall|k: int| 0 <= k < i ==> (#[trigger] results@[k])@ == result_of(hits[k], query@),
        decreases total - i,
    {
        assert(found@[i as int] < items@.len());
        results.push(build_result(&items[found[i]], query));
        i = i + 1;
    }
    assert(result_views(results@) =~= Seq::new(
        limited(query@.limit, hits.len()),
        |i: int| result_of(hits[i], query@),
    ));
    (ERR_SEC_SUCCESS, Some(KcAnswer::Many(results)))
}

/// What a dictionary argument says; nothing for `nil`.
pub open spec fn argument(dict: Option<Vec<(Option<String>, GuestValue)>>) -> Option<ParsedView> {
    match dict {
        Some(entries) => Some(parsed_dict(guest_entry_views(entries@))),
        None => None,
    }
}

/// Searches the keychain whose file is given.
pub fn SecItemCopyMatching(
    query: &Option<Vec<(Option<String>, GuestValue)>>,
    wanted: bool,
    file: &Option<Vec<u8>>,
) -> (r: (i32, Option<KcAnswer>))
    ensures
        (r.0, answer_view(r.1)) == match argument(*query) {
            Some(q) => search_outcome(stored_items(data_view(*file)), q, wanted),
            None => (ERR_SEC_PARAM, None),
        },
{
    match query {
        Some(entries) => {
            let parsed = parse_dict(entries);
            let items = load_items(file);
            search_items(&items, &parsed, wanted)
        },
        None => (ERR_SEC_PARAM, None),
    }
}

/// An attribute list in which a missing attribute is an empty text.
pub open spec fn with_default(attrs: Seq<(Seq<char>, KcView)>, key: Seq<char>) -> Seq<
    (Seq<char>, KcView),
> {
    if attr_of(attrs, key) is None {
        with_attr(attrs, key, KcView::Str(Seq::empty()))
    } else {
        attrs
    }
}

/// The item that a dictionary describes. A generic password always has an
/// account and a service.
pub open spec fn new_item(query: ParsedView) -> ItemView {
    let class = query.class->0;
    ItemView {
        class,
        attrs: if class == "genp"@ {
            with_default(with_default(query.attrs, "acct"@), "svce"@)
        } else {
            query.attrs
        },
        data: query.data,
    }
}

/// The items with one more, or the status that refuses it.
pub open spec fn with_item(items: Seq<ItemView>, query: ParsedView) -> Result<Seq<ItemView>, i32> {
    if query.class is None {
        Err(ERR_SEC_PARAM)
    } else if exists|i: int|
        0 <= i < items.len() && is_same_key(#[trigger] items[i], new_item(query)) {
        Err(ERR_SEC_DUPLICATE_ITEM)
    } else {
        Ok(items.push(new_item(query)))
    }
}

fn set_default(item: &mut KcItem, key: &str)
    ensures
        final(item)@.attrs == with_default(old(item)@.attrs, key@),
        final(item)@.class == old(item)@.class,
        final(item)@.data == old(item)@.data,
{
    if item.attr(key).is_none() {
        let empty = String::new();
        assert(empty@ =~= Seq::empty());
        item.set_attr(key, KcValue::Str(empty));
    }
}

/// Adds the item that a dictionary describes, or refuses it.
pub fn add_item(items: Vec<KcItem>, query: &ParsedDict) -> (r: Result<Vec<KcItem>, i32>)
    ensures
        match r {
            Ok(after) => with_item(item_views(items@), query@) == Ok::<Seq<ItemView>, i32>(
                item_views(after@),
            ),
            Err(status) => with_item(item_views(items@), query@) == Err::<Seq<ItemView>, i32>(
                status,
            ),
        },
{
    let class = match &query.class {
        Some(class) => class.clone(),
        None => {
            return Err(ERR_SEC_PARAM);
        },
    };
    let mut item = KcItem {
        class,
        attrs: copy_attrs(&query.attrs),
        data: copy_data(&query.data),
    };
    if same_text(item.class.as_str(), "genp") {
        set_default(&mut item, "acct");
        set_default(&mut item, "svce");
    }
    assert(item@ == new_item(query@));
    let ghost views = item_views(items@);
    let mut i: usize = 0;
    while i < items.len()
        invariant
            i <= items@.len(),
            views == item_views(items@),
            query@.class is Some,
            item@ == new_item(query@),
            forall|k: int| 0 <= k < i ==> !is_same_key(#[trigger] views[k], new_item(query@)),
        decreases items@.len() - i,
    {
        assert(views[i as int] == items@[i as int]@);
        if same_unique_key(&items[i], &item) {
            return Err(ERR_SEC_DUPLICATE_ITEM);
        }
        i = i + 1;
    }
    let mut after = items;
    let ghost added = item@;
    after.push(item);
    assert(item_views(after@) =~= views.push(added));
    Ok(after)
}

/// What a keychain function does: its status, the file to write, and what it
/// hands out once that has been done.
pub struct KcChange {
    pub status: i32,
    pub file: Option<Vec<u8>>,
    pub answer: Option<KcAnswer>,
}

/// A change that writes some items, or is refused with a status.
pub open spec fn is_change(
    change: KcChange,
    items: Result<Seq<ItemView>, i32>,
    answer: Option<AnswerView>,
) -> bool {
    match items {
        Err(status) => change.status == status && change.file is None && change.answer is None,
        Ok(after) => {
            &&& is_file_of(data_view(change.file), after)
            &&& change.file is None ==> change.status == ERR_SEC_IO && change.answer is None
            &&& change.file is Some ==> change.status == ERR_SEC_SUCCESS && answer_view(
                change.answer,
            ) == answer
        },
    }
}

fn change_to(items: &Vec<KcItem>, answer: Option<KcAnswer>) -> (change: KcChange)
    ensures
        is_change(
            change,
            Ok::<Seq<ItemView>, i32>(item_views(items@)),
            answer_view(answer),
        ),
{
    match save_items(items) {
        Some(bytes) => KcChange { status: ERR_SEC_SUCCESS, file: Some(bytes), answer },
        None => KcChange { status: ERR_SEC_IO, file: None, answer: None },
    }
}

fn refused(status: i32) -> (change: KcChange)
    ensures
        is_change(change, Err::<Seq<ItemView>, i32>(status), None),
{
    KcChange { status, file: None, answer: None }
}

/// What a new item is answered with where a result is wanted.
pub open spec fn add_answer(query: ParsedView, wanted: bool) -> Option<AnswerView> {
    if wanted && (query.return_data || query.return_attributes) {
        Some(AnswerView::One(result_of(new_item(query), query)))
    } else {
        None
    }
}

/// Adds an item to the keychain whose file is given.
pub fn SecItemAdd(
    attributes: &Option<Vec<(Option<String>, GuestValue)>>,
    wanted: bool,
    file: &Option<Vec<u8>>,
) -> (change: KcChange)
    ensures
        match argument(*attributes) {
            Some(q) => is_change(
                change,
                with_item(stored_items(data_view(*file)), q),
                add_answer(q, wanted),
            ),
            None => is_change(change, Err::<Seq<ItemView>, i32>(ERR_SEC_PARAM), None),
        },
{
    match attributes {
        Some(entries) => {
            let parsed = parse_dict(entries);
            match add_item(load_items(file), &parsed) {
                Ok(after) => {
                    assert(item_views(after@).len() == after@.len());
                    let answer: Option<KcAnswer> = if wanted && (parsed.return_data
                        || parsed.return_attributes) {
                        let last: usize = after.len() - 1;
                        assert(item_views(after@)[last as int] == after@[last as int]@);
                        Some(KcAnswer::One(build_result(&after[last], &parsed)))
                    } else {
                        None
                    };
                    change_to(&after, answer)
                },
                Err(status) => refused(status),
            }
        },
        None => refused(ERR_SEC_PARAM),
    }
}

/// An item with the attributes and the data of an update.
pub open spec fn updated_item(item: ItemView, update: ParsedView) -> ItemView {
    ItemView {
        class: item.class,
        attrs: with_attrs(item.attrs, update.attrs),
        data: match update.data {
            Some(d) => Some(d),
            None => item.data,
        },
    }
}

/// The items with the update made to those that a query matches.
pub open spec fn all_updated(items: Seq<ItemView>, query: ParsedView, update: ParsedView) -> Seq<
    ItemView,
> {
    Seq::new(
        items.len(),
        |i: int|
            if matches_query(items[i], query) {
                updated_item(items[i], update)
            } else {
                items[i]
            },
    )
}

/// An updated item has got the key of another one.
pub open spec fn clashes(
    items: Seq<ItemView>,
    query: ParsedView,
    after: Seq<ItemView>,
    i: int,
    j: int,
) -> bool {
    &&& 0 <= i < items.len()
    &&& 0 <= j < items.len()
    &&& i != j
    &&& matches_query(items[i], query)
    &&& is_same_key(after[j], after[i])
}

/// The items after an update, or the status that refuses it.
pub open spec fn with_update(items: Seq<ItemView>, query: ParsedView, update: ParsedView) -> Result<
    Seq<ItemView>,
    i32,
> {
    let after = all_updated(items, query, update);
    if query.class is None {
        Err(ERR_SEC_PARAM)
    } else if selected(items, query, true).len() == 0 {
        Err(ERR_SEC_ITEM_NOT_FOUND)
    } else if exists|i: int, j: int| #[trigger] clashes(items, query, after, i, j) {
        Err(ERR_SEC_DUPLICATE_ITEM)
    } else {
        Ok(after)
    }
}

fn update_item(item: &KcItem, update: &ParsedDict) -> (after: KcItem)
    ensures
        after@ == updated_item(item@, update@),
{
    let mut out = KcItem {
        class: item.class.clone(),
        attrs: copy_attrs(&item.attrs),
        data: copy_data(&item.data),
    };
    let ghost more = update@.attrs;
    let mut i: usize = 0;
    assert(more.take(0) =~= Seq::empty());
    while i < update.attrs.len()
        invariant
            i <= update.attrs@.len(),
            more == update@.attrs,
            out@.class == item@.class,
            out@.data == item@.data,
            out@.attrs == with_attrs(item@.attrs, more.take(i as int)),
        decreases update.attrs@.len() - i,
    {
        assert(more.take(i + 1).drop_last() =~= more.take(i as int));
        assert(more.take(i + 1).last() == (
            update.attrs@[i as int].0@,
            update.attrs@[i as int].1@,
        ));
        out.set_attr(update.attrs[i].0.as_str(), update.attrs[i].1.copy());
        i = i + 1;
    }
    assert(more.take(i as int) =~= more);
    if let Some(d) = &update.data {
        out.data = Some(copy_bytes(d));
    }
    out
}

fn copy_item(item: &KcItem) -> (copy: KcItem)
    ensures
        copy@ == item@,
{
    KcItem {
        class: item.class.clone(),
        attrs: copy_attrs(&item.attrs),
        data: copy_data(&item.data),
    }
}

fn updated_items(items: &Vec<KcItem>, query: &ParsedDict, update: &ParsedDict) -> (after: Vec<
    KcItem,
>)
    ensures
        item_views(after@) == all_updated(item_views(items@), query@, update@),
{
    let mut out: Vec<KcItem> = Vec::new();
    let mut i: usize = 0;
    let ghost views = item_views(items@);
    while i < items.len()
        invariant
            i <= items@.len(),
            views == item_views(items@),
            out@.len() == i,
            forall|k: int|
                0 <= k < i ==> (#[trigger] out@[k])@ == all_updated(views, query@, update@)[k],
        decreases items@.len() - i,
    {
        assert(views[i as int] == items@[i as int]@);
        let item = if item_matches(&items[i], query) {
            update_item(&items[i], update)
        } else {
            copy_item(&items[i])
        };
        out.push(item);
        i = i + 1;
    }
    assert(item_views(out@) =~= all_updated(views, query@, update@));
    out
}

/// Whether another item has the key of the item at an index.
fn has_twin(items: &Vec<KcItem>, index: usize) -> (twin: bool)
    requires
        index < items@.len(),
    ensures
        twin == exists|j: int|
            0 <= j < items@.len() && j != index && is_same_key(
                (#[trigger] items@[j])@,
                items@[index as int]@,
            ),
{
    let mut j: usize = 0;
    while j < items.len()
        invariant
            j <= items@.len(),
            index < items@.len(),
            forall|k: int|
                0 <= k < j && k != index ==> !is_same_key(
                    (#[trigger] items@[k])@,
                    items@[index as int]@,
                ),
        decreases items@.len() - j,
    {
        if j != index && same_unique_key(&items[j], &items[index]) {
            return true;
        }
        j = j + 1;
    }
    false
}

/// Makes an update to the items that a query matches, or refuses it.
pub fn update_items(items: &Vec<KcItem>, query: &ParsedDict, update: &ParsedDict) -> (r: Result<
    Vec<KcItem>,
    i32,
>)
    ensures
        match r {
            Ok(after) => with_update(item_views(items@), query@, update@) == Ok::<
                Seq<ItemView>,
                i32,
            >(item_views(after@)),
            Err(status) => with_update(item_views(items@), query@, update@) == Err::<
                Seq<ItemView>,
                i32,
            >(status),
        },
{
    if query.class.is_none() {
        return Err(ERR_SEC_PARAM);
    }
    let found = find_matching(items, query);
    let ghost views = item_views(items@);
    let ghost indices = matching_indices(views, query@);
    proof {
        lemma_matching_indices(views, query@);
    }
    if found.len() == 0 {
        return Err(ERR_SEC_ITEM_NOT_FOUND);
    }
    let after = updated_items(items, query, update);
    let ghost after_views = item_views(after@);
    assert(after_views.len() == after@.len());
    let mut n: usize = 0;
    while n < found.len()
        invariant
            n <= found@.len(),
            views == item_views(items@),
            after_views == item_views(after@),
            after_views == all_updated(views, query@, update@),
            after@.len() == items@.len(),
            indices == matching_indices(views, query@),
            found@.len() == indices.len(),
            found@.len() > 0,
            query@.class is Some,
            selected(views, query@, true).len() > 0,
            forall|k: int| 0 <= k < found@.len() ==> #[trigger] found@[k] == indices[k],
            forall|k: int|
                0 <= k < found@.len() ==> (#[trigger] found@[k]) < items@.len() && matches_query(
                    views[found@[k] as int],
                    query@,
                ),
            forall|k: int, j: int|
                0 <= k < n ==> !#[trigger] clashes(
                    views,
                    query@,
                    after_views,
                    found@[k] as int,
                    j,
                ),
        decreases found@.len() - n,
    {
        let index: usize = found[n];
        if has_twin(&after, index) {
            proof {
                let j = choose|j: int|
                    0 <= j < after@.len() && j != index && is_same_key(
                        (#[trigger] after@[j])@,
                        after@[index as int]@,
                    );
                assert(after_views[j] == after@[j]@);
                assert(after_views[index as int] == after@[index as int]@);
                assert(clashes(views, query@, after_views, index as int, j));
            }
            return Err(ERR_SEC_DUPLICATE_ITEM);
        }
        proof {
            assert forall|j: int| !#[trigger] clashes(
                views,
                query@,
                after_views,
                found@[n as int] as int,
                j,
            ) by {
                if clashes(views, query@, after_views, index as int, j) {
                    assert(after_views[j] == after@[j]@);
                    assert(after_views[index as int] == after@[index as int]@);
                }
            }
        }
        n = n + 1;
    }
    proof {
        assert forall|i: int, j: int| !#[trigger] clashes(
            views,
            query@,
            after_views,
            i,
            j,
        ) by {
            if clashes(views, query@, after_views, i, j) {
                assert(matches_query(views[i], query@));
                assert(indices.contains(i));
                let k = choose|k: int| 0 <= k < indices.len() && indices[k] == i;
                assert(found@[k] == indices[k]);
                assert(!clashes(views, query@, after_views, found@[k] as int, j));
            }
        }
    }
    Ok(after)
}

/// Updates the items that a query matches in the keychain whose file is given.
pub fn SecItemUpdate(
    query: &Option<Vec<(Option<String>, GuestValue)>>,
    attributes_to_update: &Option<Vec<(Option<String>, GuestValue)>>,
    file: &Option<Vec<u8>>,
) -> (change: KcChange)
    ensures
        match (argument(*query), argument(*attributes_to_update)) {
            (Some(q), Some(u)) => is_change(
                change,
                with_update(stored_items(data_view(*file)), q, u),
                None,
            ),
            _ => is_change(change, Err::<Seq<ItemView>, i32>(ERR_SEC_PARAM), None),
        },
{
    match (query, attributes_to_update) {
        (Some(entries), Some(update_entries)) => {
            let parsed = parse_dict(entries);
            let update = parse_dict(update_entries);
            let items = load_items(file);
            match update_items(&items, &parsed, &update) {
                Ok(after) => change_to(&after, None),
                Err(status) => refused(status),
            }
        },
        _ => refused(ERR_SEC_PARAM),
    }
}

/// The items without those that a query matches, or the status that refuses it.
pub open spec fn without_items(items: Seq<ItemView>, query: ParsedView) -> Result<
    Seq<ItemView>,
    i32,
> {
    let left = selected(items, query, false);
    if query.class is None {
        Err(ERR_SEC_PARAM)
    } else if left.len() == items.len() {
        Err(ERR_SEC_ITEM_NOT_FOUND)
    } else {
        Ok(left)
    }
}

/// Takes out the items that a query matches, or refuses that.
pub fn delete_items(items: &Vec<KcItem>, query: &ParsedDict) -> (r: Result<Vec<KcItem>, i32>)
    ensures
        match r {
            Ok(after) => without_items(item_views(items@), query@) == Ok::<Seq<ItemView>, i32>(
                item_views(after@),
            ),
            Err(status) => without_items(item_views(items@), query@) == Err::<Seq<ItemView>, i32>(
                status,
            ),
        },
{
    if query.class.is_none() {
        return Err(ERR_SEC_PARAM);
    }
    let mut left: Vec<KcItem> = Vec::new();
    let mut i: usize = 0;
    let ghost views = item_views(items@);
    assert(item_views(left@) =~= Seq::empty());
    while i < items.len()
        invariant
            i <= items@.len(),
            views == item_views(items@),
            left@.len() <= i,
            item_views(left@) == selected(views.take(i as int), query@, false),
        decreases items@.len() - i,
    {
        assert(views.take(i + 1).drop_last() =~= views.take(i as int));
        assert(views.take(i + 1).last() == items@[i as int]@);
        if !item_matches(&items[i], query) {
            let copy = copy_item(&items[i]);
            let ghost before = item_views(left@);
            let ghost added = copy@;
            left.push(copy);
            assert(item_views(left@) =~= before.push(added));
        }
        i = i + 1;
    }
    assert(views.take(i as int) =~= views);
    if left.len() == items.len() {
        Err(ERR_SEC_ITEM_NOT_FOUND)
    } else {
        Ok(left)
    }
}

/// Deletes the items that a query matches in the keychain whose file is given.
pub fn SecItemDelete(
    query: &Option<Vec<(Option<String>, GuestValue)>>,
    file: &Option<Vec<u8>>,
) -> (change: KcChange)
    ensures
        match argument(*query) {
            Some(q) => is_change(change, without_items(stored_items(data_view(*file)), q), None),
            None => is_change(change, Err::<Seq<ItemView>, i32>(ERR_SEC_PARAM), None),
        },
{
    match query {
        Some(entries) => {
            let parsed = parse_dict(entries);
            let items = load_items(file);
            match delete_items(&items, &parsed) {
                Ok(left) => change_to(&left, None),
                Err(status) => refused(status),
            }
        },
        None => refused(ERR_SEC_PARAM),
    }
}

/// The status and the answer of a change once its file has been written, or
/// could not be.
pub fn finish_change(change: KcChange, written: bool) -> (r: (i32, Option<KcAnswer>))
    ensures
        change.file is Some && !written ==> r.0 == ERR_SEC_IO && r.1 is None,
        !(change.file is Some && !written) ==> r.0 == change.status && r.1 == change.answer,
{
    if change.file.is_some() && !written {
        (ERR_SEC_IO, None)
    } else {
        (change.status, change.answer)
    }
}

/// No two items have the same key.
pub open spec fn all_unique(items: Seq<ItemView>) -> bool {
    forall|i: int, j: int|
        0 <= i < items.len() && 0 <= j < items.len() && i != j ==> !is_same_key(
            #[trigger] items[i],
            #[trigger] items[j],
        )
}

/// Adding an item keeps the keys of all items unique.
pub proof fn law_add_keeps_unique(items: Seq<ItemView>, query: ParsedView)
    requires
        all_unique(items),
    ensures
        with_item(items, query) matches Ok(after) ==> all_unique(after),
{
    if let Ok(after) = with_item(items, query) {
        let new = new_item(query);
        assert forall|i: int, j: int|
            0 <= i < after.len() && 0 <= j < after.len() && i != j implies !is_same_key(
            #[trigger] after[i],
            #[trigger] after[j],
        ) by {
            law_same_key_is_symmetric(after[i], after[j]);
            if i < items.len() && j < items.len() {
                assert(!is_same_key(items[i], items[j]));
            } else if i < items.len() {
                assert(!is_same_key(items[i], new));
            } else {
                assert(!is_same_key(items[j], new));
            }
        }
    }
}

/// An update keeps the keys of all items unique.
pub proof fn law_update_keeps_unique(items: Seq<ItemView>, query: ParsedView, update: ParsedView)
    requires
        all_unique(items),
    ensures
        with_update(items, query, update) matches Ok(after) ==> all_unique(after),
{
    if let Ok(after) = with_update(items, query, update) {
        assert forall|i: int, j: int|
            0 <= i < after.len() && 0 <= j < after.len() && i != j implies !is_same_key(
            #[trigger] after[i],
            #[trigger] after[j],
        ) by {
            law_same_key_is_symmetric(after[i], after[j]);
            assert(!clashes(items, query, after, i, j));
            assert(!clashes(items, query, after, j, i));
            if !matches_query(items[i], query) && !matches_query(items[j], query) {
                assert(!is_same_key(items[i], items[j]));
            }
        }
    }
}

/// Deleting items leaves none that the query matches, keeps all others, and
/// keeps their keys unique.
pub proof fn law_delete(items: Seq<ItemView>, query: ParsedView)
    ensures
        forall|i: int|
            0 <= i < selected(items, query, false).len() ==> !matches_query(
                #[trigger] selected(items, query, false)[i],
                query,
            ),
        selected(selected(items, query, false), query, true).len() == 0,
        selected(items, query, true).len() + selected(items, query, false).len() == items.len(),
        all_unique(items) ==> all_unique(selected(items, query, false)),
    decreases items.len(),
{
    if items.len() > 0 {
        let front = items.drop_last();
        law_delete(front, query);
        let left = selected(items, query, false);
        let rest = selected(front, query, false);
        assert forall|i: int| 0 <= i < left.len() implies !matches_query(
            #[trigger] left[i],
            query,
        ) by {
            if i < rest.len() {
                assert(left[i] == rest[i]);
            }
        }
        lemma_none_selected(left, query);
        if all_unique(items) {
            assert forall|i: int, j: int|
                0 <= i < front.len() && 0 <= j < front.len() && i != j implies !is_same_key(
                #[trigger] front[i],
                #[trigger] front[j],
            ) by {
                assert(!is_same_key(items[i], items[j]));
            }
            if !matches_query(items.last(), query) {
                assert forall|i: int, j: int|
                    0 <= i < left.len() && 0 <= j < left.len() && i != j implies !is_same_key(
                    #[trigger] left[i],
                    #[trigger] left[j],
                ) by {
                    law_same_key_is_symmetric(left[i], left[j]);
                    if i < rest.len() && j < rest.len() {
                        assert(!is_same_key(rest[i], rest[j]));
                    } else {
                        let k = if i < rest.len() {
                            i
                        } else {
                            j
                        };
                        lemma_selected_from(front, query, false, k);
                        let m = choose|m: int| 0 <= m < front.len() && front[m] == rest[k];
                        assert(items[m] == rest[k]);
                        assert(!is_same_key(items[m], items[items.len() - 1]));
                    }
                }
            }
        }
    }
}

proof fn lemma_none_selected(items: Seq<ItemView>, query: ParsedView)
    requires
        forall|i: int| 0 <= i < items.len() ==> !matches_query(#[trigger] items[i], query),
    ensures
        selected(items, query, true).len() == 0,
    decreases items.len(),
{
    if items.len() > 0 {
        assert(!matches_query(items[items.len() - 1], query));
        assert forall|i: int| 0 <= i < items.len() - 1 implies !matches_query(
            #[trigger] items.drop_last()[i],
            query,
        ) by {
            assert(!matches_query(items[i], query));
        }
        lemma_none_selected(items.drop_last(), query);
    }
}

proof fn lemma_selected_from(items: Seq<ItemView>, query: ParsedView, matching: bool, k: int)
    requires
        0 <= k < selected(items, query, matching).len(),
    ensures
        exists|m: int| 0 <= m < items.len() && items[m] == selected(items, query, matching)[k],
    decreases items.len(),
{
    if items.len() > 0 {
        let front = items.drop_last();
        let rest = selected(front, query, matching);
        if k < rest.len() {
            lemma_selected_from(front, query, matching, k);
            let m = choose|m: int| 0 <= m < front.len() && front[m] == rest[k];
            assert(items[m] == rest[k]);
        } else {
            assert(items[items.len() - 1] == selected(items, query, matching)[k]);
        }
    }
}

/// An item that has been added is found by the dictionary that described it.
pub proof fn law_added_item_is_found(items: Seq<ItemView>, query: ParsedView)
    requires
        distinct_attrs(query.attrs),
        are_storable(query.attrs),
    ensures
        with_item(items, query) matches Ok(after) ==> {
            &&& matches_query(new_item(query), query)
            &&& selected(after, query, true).len() > 0
            &&& selected(after, query, true).last() == new_item(query)
        },
{
    if let Ok(after) = with_item(items, query) {
        let item = new_item(query);
        assert forall|i: int| 0 <= i < query.attrs.len() implies attr_agrees(
            item,
            (#[trigger] query.attrs[i]).0,
            query.attrs[i].1,
        ) by {
            let (key, value) = query.attrs[i];
            lemma_attr_at(query.attrs, key, i);
            assert(attr_of(query.attrs, key) == Some(value));
            let once = with_default(query.attrs, "acct"@);
            law_set_attr(query.attrs, "acct"@, KcView::Str(Seq::empty()), key);
            assert(attr_of(once, key) == Some(value));
            law_set_attr(once, "svce"@, KcView::Str(Seq::empty()), key);
            assert(attr_of(item.attrs, key) == Some(value));
        }
        assert(after.drop_last() =~= items);
    }
}

/// The attributes of stored items are distinct.
proof fn lemma_stored_attrs_distinct(file: Option<Seq<u8>>)
    ensures
        forall|i: int|
            0 <= i < stored_items(file).len() ==> distinct_attrs(
                (#[trigger] stored_items(file)[i]).attrs,
            ),
{
    if let Some(bytes) = file {
        if let Some(root) = plist_value::readable_document(bytes) {
            if let Some(PlistView::Array(entries)) = plist_value::value_of(root, "items"@) {
                law_loaded_attrs_are_distinct(entries);
            }
        }
    }
}

/// The items that a change writes are the items that are loaded afterwards.
pub proof fn law_change_is_loaded(
    change: KcChange,
    after: Seq<ItemView>,
    answer: Option<AnswerView>,
)
    requires
        is_change(change, Ok::<Seq<ItemView>, i32>(after), answer),
        all_storable(after),
        forall|i: int| 0 <= i < after.len() ==> distinct_attrs((#[trigger] after[i]).attrs),
    ensures
        change.status == ERR_SEC_SUCCESS,
        stored_items(data_view(change.file)) == after,
{
    law_document_round_trip(after);
}

/// An item that has been added to the keychain is found in it: a search with the
/// dictionary that described it gives its data or its attributes, if no other item
/// matches.
pub proof fn law_added_item_is_read(
    file: Option<Seq<u8>>,
    query: ParsedView,
    change: KcChange,
    answer: Option<AnswerView>,
)
    requires
        distinct_attrs(query.attrs),
        are_storable(query.attrs),
        all_storable(stored_items(file)),
        with_item(stored_items(file), query) is Ok,
        is_change(change, with_item(stored_items(file), query), answer),
    ensures
        ({
            let loaded = stored_items(data_view(change.file));
            &&& change.status == ERR_SEC_SUCCESS
            &&& loaded == stored_items(file).push(new_item(query))
            &&& search_outcome(loaded, query, true).0 == ERR_SEC_SUCCESS
            &&& selected(stored_items(file), query, true).len() == 0 && query.limit
                == MatchLimit::One && (query.return_data || query.return_attributes)
                ==> search_outcome(loaded, query, true).1 == Some(
                AnswerView::One(result_of(new_item(query), query)),
            )
        }),
{
    let items = stored_items(file);
    let after = items.push(new_item(query));
    let item = new_item(query);
    let once = with_default(query.attrs, "acct"@);
    lemma_with_attr_distinct(query.attrs, "acct"@, KcView::Str(Seq::empty()));
    lemma_with_attr_distinct(once, "svce"@, KcView::Str(Seq::empty()));
    lemma_with_attr_storable(query.attrs, "acct"@, KcView::Str(Seq::empty()));
    lemma_with_attr_storable(once, "svce"@, KcView::Str(Seq::empty()));
    lemma_stored_attrs_distinct(file);
    assert forall|i: int| 0 <= i < after.len() implies are_storable((#[trigger] after[i]).attrs) by {
        if i < items.len() {
            assert(are_storable(items[i].attrs));
        }
    }
    assert forall|i: int| 0 <= i < after.len() implies distinct_attrs(
        (#[trigger] after[i]).attrs,
    ) by {
        if i < items.len() {
            assert(distinct_attrs(items[i].attrs));
        }
    }
    law_change_is_loaded(change, after, answer);
    law_added_item_is_found(items, query);
    assert(after.drop_last() =~= items);
}

/// What has been deleted from the keychain is not found in it any more.
pub proof fn law_deleted_items_are_gone(
    file: Option<Seq<u8>>,
    query: ParsedView,
    wanted: bool,
    change: KcChange,
)
    requires
        all_storable(stored_items(file)),
        without_items(stored_items(file), query) is Ok,
        is_change(change, without_items(stored_items(file), query), None),
    ensures
        change.status == ERR_SEC_SUCCESS,
        search_outcome(stored_items(data_view(change.file)), query, wanted) == (
            ERR_SEC_ITEM_NOT_FOUND,
            None::<AnswerView>,
        ),
{
    let items = stored_items(file);
    let left = selected(items, query, false);
    lemma_stored_attrs_distinct(file);
    assert forall|k: int| 0 <= k < left.len() implies are_storable((#[trigger] left[k]).attrs)
        && distinct_attrs(left[k].attrs) by {
        lemma_selected_from(items, query, false, k);
        let m = choose|m: int| 0 <= m < items.len() && items[m] == left[k];
        assert(are_storable(items[m].attrs));
        assert(distinct_attrs(items[m].attrs));
    }
    law_change_is_loaded(change, left, None);
    law_delete(items, query);
}

/// A guest object for a value, which the caller owns. A number also belongs to
/// the current pool.
pub open spec fn is_guest_value(before: Environment, after: Environment, id: Id, value: KcView) -> bool {
    &&& id == before.objc.objects@.len()
    &&& match value {
        KcView::Str(s) => {
            &&& ns_string::string_added(
                before.objc.objects@,
                after.objc.objects@,
                StringView::Utf8(s),
                false,
                Some(1),
            )
            &&& after.mem == before.mem
        },
        KcView::Data(d) => ns_data::data_added(
            before,
            after,
            id,
            d,
            ns_data::at_least_one(d.len()),
            false,
        ),
        KcView::Int(i) => {
            &&& after.objc.objects@ == before.objc.objects@.push(
                Object { retain_count: Some(2), host: HostObject::Number(NumberValue::Signed(i)) },
            )
            &&& after.mem == before.mem
        },
        KcView::Real(r) => {
            &&& after.objc.objects@ == before.objc.objects@.push(
                Object { retain_count: Some(2), host: HostObject::Number(NumberValue::Real(r)) },
            )
            &&& after.mem == before.mem
        },
    }
    &&& after.autorelease_pool@ == if value is Int || value is Real {
        before.autorelease_pool@.push(id)
    } else {
        before.autorelease_pool@
    }
}

fn shared_number(env: &mut Environment, value: NumberValue) -> (id: Id)
    requires
        old(env).wf(),
        old(env).has_room(1, 0),
    ensures
        final(env).wf(),
        id == old(env).objc.objects@.len(),
        final(env).objc.objects@ == old(env).objc.objects@.push(
            Object { retain_count: Some(2), host: HostObject::Number(value) },
        ),
        final(env).mem == old(env).mem,
        final(env).autorelease_pool@ == old(env).autorelease_pool@.push(id),
{
    let id: Id = env.objc.alloc_object(HostObject::Number(value));
    autorelease(env, id);
    retain(env, id);
    assert(env.objc.objects@ =~= old(env).objc.objects@.push(
        Object { retain_count: Some(2), host: HostObject::Number(value) },
    ));
    id
}

/// Makes the guest object of a value.
pub fn value_to_guest(env: &mut Environment, value: &KcValue) -> (id: Id)
    requires
        old(env).wf(),
        old(env).has_room(1, 0),
        value@ matches KcView::Data(d) ==> old(env).has_room(
            1,
            ns_data::at_least_one(d.len()) as int,
        ),
    ensures
        final(env).wf(),
        is_guest_value(*old(env), *final(env), id, value@),
{
    match value {
        KcValue::Str(s) => from_rust_string(env, s.clone()),
        KcValue::Data(d) => new_nsdata(env, d, false),
        KcValue::Int(i) => shared_number(env, NumberValue::Signed(*i)),
        KcValue::Real(r) => shared_number(env, NumberValue::Real(*r)),
    }
}

/// The bytes of a text or of data.
pub open spec fn bytes_in(value: KcView) -> Option<Seq<u8>> {
    match value {
        KcView::Str(s) => Some(utf8::encode_utf8(s)),
        KcView::Data(d) => Some(d),
        _ => None,
    }
}

/// Texts and data count as the same exactly if they have the same bytes, and never count
/// as the same as numbers; integers do if they are the same, and a real number counts as
/// the same as those numbers that are equal to it, where an integer is taken as the nearest
/// real number. What is not a number counts as the same as nothing.
pub proof fn law_loosely_equal(a: KcView, b: KcView)
    ensures
        bytes_in(a) is Some && bytes_in(b) is Some ==> (loosely_equal(a, b) <==> bytes_in(a)
            == bytes_in(b)),
        (bytes_in(a) is Some) != (bytes_in(b) is Some) ==> !loosely_equal(a, b),
        a matches KcView::Int(x) ==> (b matches KcView::Int(y) ==> (loosely_equal(a, b) <==> x
            == y)),
        a matches KcView::Real(x) ==> (loosely_equal(a, a) <==> (x as int % 0x8000_0000_0000_0000)
            <= 0x7ff0_0000_0000_0000),
        a matches KcView::Real(x) ==> (b matches KcView::Real(y) ==> (loosely_equal(a, b) ==> x
            == y || (x as int % 0x8000_0000_0000_0000 == 0 && y as int % 0x8000_0000_0000_0000
            == 0))),
        a matches KcView::Int(x) ==> (b matches KcView::Real(y) ==> (loosely_equal(a, b)
            <==> loosely_equal(KcView::Real(doubles::of_integer(x as int) as u64), b))),
        loosely_equal(a, b) == loosely_equal(b, a),
{
    if let KcView::Str(x) = a {
        if let KcView::Str(y) = b {
            utf8::encode_utf8_decode_utf8(x);
            utf8::encode_utf8_decode_utf8(y);
        }
    }
}

/// Two items do not agree on an attribute: only one of them has it, or their values do not
/// count as the same.
pub open spec fn tells_apart(a: ItemView, b: ItemView, key: Seq<char>) -> bool {
    let (x, y) = (attr_of(a.attrs, key), attr_of(b.attrs, key));
    (x is Some) != (y is Some) || (x is Some && y is Some && !loosely_equal(x->0, y->0))
}

/// The names of the attributes that tell passwords of a class apart.
pub open spec fn key_names(class: Seq<char>) -> Set<Seq<char>> {
    if class == "genp"@ {
        set!["acct"@, "svce"@]
    } else {
        set!["acct"@, "sdmn"@, "srvr"@, "ptcl"@, "atyp"@, "port"@, "path"@]
    }
}

/// Passwords that one of the attributes of their key tells apart never have the same key,
/// and passwords of the same class that none of them tells apart always do. Items of
/// different classes, and items that are no passwords, never have the same key.
pub proof fn law_key_tells_apart(a: ItemView, b: ItemView)
    ensures
        forall|key: Seq<char>|
            #[trigger] tells_apart(a, b, key) && key_names(a.class).contains(key) ==> !is_same_key(
                a,
                b,
            ),
        a.class != b.class ==> !is_same_key(a, b),
        a.class != "genp"@ && a.class != "inet"@ ==> !is_same_key(a, b),
        a.class == b.class && (a.class == "genp"@ || a.class == "inet"@) && (forall|
            key: Seq<char>,
        | #[trigger]
            key_names(a.class).contains(key) ==> !tells_apart(a, b, key)) ==> is_same_key(a, b),
{
    let names = key_names(a.class);
    assert(a.class == "genp"@ ==> names.contains("acct"@) && names.contains("svce"@));
    assert(a.class != "genp"@ ==> names.contains("acct"@) && names.contains("sdmn"@)
        && names.contains("srvr"@) && names.contains("ptcl"@) && names.contains("atyp"@)
        && names.contains("port"@) && names.contains("path"@));
    reveal_strlit("genp");
    reveal_strlit("inet");
    assert("genp"@[0] != "inet"@[0]);
    assert forall|key: Seq<char>|
        #[trigger] tells_apart(a, b, key) && names.contains(key) implies !is_same_key(a, b) by {
        assert(!share_attr(a, b, key));
    }
}

/// Any other attribute plays no part for the key.
pub proof fn law_key_ignores_other_attributes(
    a: ItemView,
    b: ItemView,
    name: Seq<char>,
    value: KcView,
    data: Option<Seq<u8>>,
)
    requires
        !key_names(a.class).contains(name),
    ensures
        is_same_key(
            ItemView { class: a.class, attrs: with_attr(a.attrs, name, value), data },
            b,
        ) == is_same_key(a, b),
{
    let names = key_names(a.class);
    assert(a.class == "genp"@ ==> names.contains("acct"@) && names.contains("svce"@));
    assert(a.class != "genp"@ ==> names.contains("acct"@) && names.contains("sdmn"@)
        && names.contains("srvr"@) && names.contains("ptcl"@) && names.contains("atyp"@)
        && names.contains("port"@) && names.contains("path"@));
    law_set_attr(a.attrs, name, value, "acct"@);
    law_set_attr(a.attrs, name, value, "svce"@);
    law_set_attr(a.attrs, name, value, "sdmn"@);
    law_set_attr(a.attrs, name, value, "srvr"@);
    law_set_attr(a.attrs, name, value, "ptcl"@);
    law_set_attr(a.attrs, name, value, "atyp"@);
    law_set_attr(a.attrs, name, value, "port"@);
    law_set_attr(a.attrs, name, value, "path"@);
}

/// A password is added if and only if the attributes of its key tell it apart from all
/// stored passwords of its class; else it is refused as a duplicate. An item of another
/// class is always added. Without a class nothing is.
pub proof fn law_add(items: Seq<ItemView>, query: ParsedView)
    ensures
        query.class is None ==> with_item(items, query) == Err::<Seq<ItemView>, i32>(-50i32),
        query.class is Some ==> {
            let new = new_item(query);
            let is_password = new.class == "genp"@ || new.class == "inet"@;
            let refused = is_password && exists|i: int|
                0 <= i < items.len() && (#[trigger] items[i]).class == new.class && forall|
                    key: Seq<char>,
                | #[trigger]
                    key_names(new.class).contains(key) ==> !tells_apart(items[i], new, key);
            with_item(items, query) == if refused {
                Err::<Seq<ItemView>, i32>(-25299i32)
            } else {
                Ok::<Seq<ItemView>, i32>(items.push(new))
            }
        },
{
    if query.class is Some {
        let new = new_item(query);
        assert forall|i: int| 0 <= i < items.len() implies is_same_key(#[trigger] items[i], new)
            == ((new.class == "genp"@ || new.class == "inet"@) && items[i].class == new.class
            && forall|key: Seq<char>| #[trigger]
            key_names(new.class).contains(key) ==> !tells_apart(items[i], new, key)) by {
            law_key_tells_apart(items[i], new);
        }
    }
}

/// A new item has the class, the data and all attributes that were given. A generic
/// password without an account or a service has an empty text for it.
pub proof fn law_new_item(query: ParsedView, key: Seq<char>)
    requires
        query.class is Some,
    ensures
        new_item(query).class == query.class->0,
        new_item(query).data == query.data,
        attr_of(query.attrs, key) is Some ==> attr_of(new_item(query).attrs, key) == attr_of(
            query.attrs,
            key,
        ),
        attr_of(query.attrs, key) is None ==> attr_of(new_item(query).attrs, key)
            == if query.class->0 == "genp"@ && (key == "acct"@ || key == "svce"@) {
            Some(KcView::Str(Seq::empty()))
        } else {
            None
        },
{
    let empty = KcView::Str(Seq::empty());
    let once = with_default(query.attrs, "acct"@);
    law_set_attr(query.attrs, "acct"@, empty, key);
    law_set_attr(query.attrs, "acct"@, empty, "svce"@);
    law_set_attr(once, "svce"@, empty, key);
}

/// A query without attributes matches the items of its class; one more attribute leaves
/// those whose value counts as the same, and one for access, synchronisation, times or
/// checksums leaves all of them.
pub proof fn law_query_matches(item: ItemView, query: ParsedView, key: Seq<char>, value: KcView)
    ensures
        query.attrs.len() == 0 ==> (matches_query(item, query) <==> query.class == Some(
            item.class,
        )),
        ({
            let more = ParsedView { attrs: query.attrs.push((key, value)), ..query };
            let ignored = set![
                "agrp"@,
                "pdmn"@,
                "sync"@,
                "cdat"@,
                "mdat"@,
                "tomb"@,
                "musr"@,
                "sha1"@,
            ];
            matches_query(item, more) <==> matches_query(item, query) && (ignored.contains(key)
                || (attr_of(item.attrs, key) matches Some(stored) && loosely_equal(stored, value)))
        }),
{
    let more = ParsedView { attrs: query.attrs.push((key, value)), ..query };
    let n = query.attrs.len() as int;
    assert(more.attrs[n] == (key, value));
    assert(forall|i: int| 0 <= i < n ==> more.attrs[i] == query.attrs[i]);
    if matches_query(item, query) && attr_agrees(item, key, value) {
        assert forall|i: int| 0 <= i < more.attrs.len() implies attr_agrees(
            item,
            (#[trigger] more.attrs[i]).0,
            more.attrs[i].1,
        ) by {
            if i < n {
                assert(more.attrs[i] == query.attrs[i]);
            }
        }
    }
    if matches_query(item, more) {
        assert forall|i: int| 0 <= i < n implies attr_agrees(
            item,
            (#[trigger] query.attrs[i]).0,
            query.attrs[i].1,
        ) by {
            assert(more.attrs[i] == query.attrs[i]);
        }
    }
}

/// Which items a query does not look at plays no part for what it selects: each item is
/// selected if it matches, and the selected items come in their order.
pub proof fn law_selected(items: Seq<ItemView>, query: ParsedView, item: ItemView)
    ensures
        selected(items.push(item), query, true) == selected(items, query, true) + if matches_query(
            item,
            query,
        ) {
            seq![item]
        } else {
            Seq::empty()
        },
        selected(items.push(item), query, false) == selected(items, query, false)
            + if matches_query(item, query) {
            Seq::empty()
        } else {
            seq![item]
        },
        selected(Seq::empty(), query, true).len() == 0,
        selected(Seq::empty(), query, false).len() == 0,
{
    assert(items.push(item).drop_last() =~= items);
    assert(selected(items.push(item), query, true) =~= selected(items, query, true)
        + if matches_query(item, query) {
        seq![item]
    } else {
        Seq::empty()
    });
    assert(selected(items.push(item), query, false) =~= selected(items, query, false)
        + if matches_query(item, query) {
        Seq::empty()
    } else {
        seq![item]
    });
}

/// A search for nothing in particular is refused, one that matches no item finds nothing,
/// and any other succeeds. It hands out something only where that is wanted and asked for:
/// the first match alone, or a list of all matches or of as many as are asked for, in their
/// order.
pub proof fn law_search(items: Seq<ItemView>, query: ParsedView, wanted: bool)
    ensures
        ({
            let (status, answer) = search_outcome(items, query, wanted);
            let found = selected(items, query, true);
            let asked = wanted && (query.return_data || query.return_attributes);
            &&& query.class is None ==> status == -50 && answer is None
            &&& query.class is Some ==> (status == if found.len() == 0 {
                -25300int
            } else {
                0
            })
            &&& answer is Some <==> status == 0 && asked
            &&& answer matches Some(AnswerView::One(result)) ==> query.limit == MatchLimit::One
                && result == result_of(found[0], query)
            &&& answer matches Some(AnswerView::Many(results)) ==> {
                &&& query.limit != MatchLimit::One
                &&& results.len() <= found.len()
                &&& query.limit == MatchLimit::All ==> results.len() == found.len()
                &&& query.limit matches MatchLimit::Count(n) ==> results.len() <= n && (
                results.len() == n || results.len() == found.len())
                &&& forall|i: int|
                    0 <= i < results.len() ==> #[trigger] results[i] == result_of(found[i], query)
            }
        }),
{
}

/// What is handed out of an item: its data, or its attributes, among which the data is if
/// both are asked for.
pub proof fn law_result(item: ItemView, query: ParsedView, key: Seq<char>)
    ensures
        ({
            let result = result_of(item, query);
            &&& query.return_data && !query.return_attributes ==> (result matches ResultView::Data(d)
                && (item.data matches Some(stored) ==> d == stored) && (item.data is None ==> d.len()
                == 0))
            &&& !query.return_data && !query.return_attributes ==> result is Nothing
            &&& query.return_attributes ==> (result matches ResultView::Attributes(attrs) && {
                &&& attr_of(item.attrs, key) is Some ==> attr_of(attrs, key) == attr_of(
                    item.attrs,
                    key,
                )
                &&& attr_of(item.attrs, key) is None ==> attr_of(attrs, key)
                    == if query.return_data && key == "v_Data"@ {
                    Some(
                        KcView::Data(
                            match item.data {
                                Some(stored) => stored,
                                None => Seq::empty(),
                            },
                        ),
                    )
                } else {
                    None
                }
            })
        }),
{
    lemma_attr_of_push(
        item.attrs,
        "v_Data"@,
        KcView::Data(data_or_empty(item.data)),
        key,
    );
}

proof fn lemma_attr_of_push(
    attrs: Seq<(Seq<char>, KcView)>,
    name: Seq<char>,
    value: KcView,
    key: Seq<char>,
)
    ensures
        attr_of(attrs.push((name, value)), key) == if attr_of(attrs, key) is Some {
            attr_of(attrs, key)
        } else if name == key {
            Some(value)
        } else {
            None
        },
    decreases attrs.len(),
{
    let after = attrs.push((name, value));
    if attrs.len() == 0 {
        assert(after.drop_first() =~= Seq::empty());
        assert(attr_of(after.drop_first(), key) is None);
    } else {
        lemma_attr_of_push(attrs.drop_first(), name, value, key);
        assert(after.drop_first() =~= attrs.drop_first().push((name, value)));
    }
}

/// An attribute is the first one of its name.
pub proof fn law_attr_is_first(
    attrs: Seq<(Seq<char>, KcView)>,
    name: Seq<char>,
    value: KcView,
    key: Seq<char>,
)
    ensures
        attr_of(Seq::empty(), key) is None,
        attr_of(seq![(name, value)] + attrs, key) == if name == key {
            Some(value)
        } else {
            attr_of(attrs, key)
        },
{
    assert((seq![(name, value)] + attrs).drop_first() =~= attrs);
}

/// An update changes the items that the query matches and no others: of those each
/// attribute and the data that the update names, and nothing else.
pub proof fn law_update(
    items: Seq<ItemView>,
    query: ParsedView,
    update: ParsedView,
    i: int,
    key: Seq<char>,
)
    requires
        0 <= i < items.len(),
        distinct_attrs(update.attrs),
    ensures
        ({
            let after = all_updated(items, query, update);
            &&& after.len() == items.len()
            &&& !matches_query(items[i], query) ==> after[i] == items[i]
            &&& matches_query(items[i], query) ==> {
                &&& after[i].class == items[i].class
                &&& update.data is Some ==> after[i].data == update.data
                &&& update.data is None ==> after[i].data == items[i].data
                &&& attr_of(after[i].attrs, key) == if attr_of(update.attrs, key) is Some {
                    attr_of(update.attrs, key)
                } else {
                    attr_of(items[i].attrs, key)
                }
            }
        }),
{
    lemma_attrs_set(items[i].attrs, update.attrs, key);
}

proof fn lemma_attrs_set(
    attrs: Seq<(Seq<char>, KcView)>,
    more: Seq<(Seq<char>, KcView)>,
    key: Seq<char>,
)
    requires
        distinct_attrs(more),
    ensures
        attr_of(with_attrs(attrs, more), key) == if attr_of(more, key) is Some {
            attr_of(more, key)
        } else {
            attr_of(attrs, key)
        },
    decreases more.len(),
{
    if more.len() > 0 {
        let front = more.drop_last();
        let (name, value) = more.last();
        lemma_attrs_set(attrs, front, key);
        law_set_attr(with_attrs(attrs, front), name, value, key);
        lemma_attr_of_push(front, name, value, key);
        assert(front.push((name, value)) =~= more);
        if name == key {
            lemma_attr_at(front, key, front.len() as int);
        }
    }
}

/// An update is refused if no item matches, or if a changed item would get the key of
/// another one, and else made. A deletion is refused if no item matches, and else leaves
/// the items that do not match. Neither is made without a class.
pub proof fn law_update_and_delete_status(
    items: Seq<ItemView>,
    query: ParsedView,
    update: ParsedView,
)
    ensures
        query.class is None ==> with_update(items, query, update) == Err::<Seq<ItemView>, i32>(
            -50i32,
        ) && without_items(items, query) == Err::<Seq<ItemView>, i32>(-50i32),
        query.class is Some && (forall|i: int|
            0 <= i < items.len() ==> !matches_query(#[trigger] items[i], query)) ==> with_update(
            items,
            query,
            update,
        ) == Err::<Seq<ItemView>, i32>(-25300i32) && without_items(items, query) == Err::<
            Seq<ItemView>,
            i32,
        >(-25300i32),
        forall|i: int|
            query.class is Some && 0 <= i < items.len() && matches_query(
                #[trigger] items[i],
                query,
            ) ==> without_items(items, query) == Ok::<Seq<ItemView>, i32>(
                selected(items, query, false),
            ) && (with_update(items, query, update) == Ok::<Seq<ItemView>, i32>(
                all_updated(items, query, update),
            ) || with_update(items, query, update) == Err::<Seq<ItemView>, i32>(-25299i32)),
        query.class is Some && (exists|i: int|
            0 <= i < items.len() && matches_query(#[trigger] items[i], query)) ==> (with_update(
            items,
            query,
            update,
        ) is Err <==> exists|i: int, j: int|
            #![trigger items[i], items[j]]
            0 <= i < items.len() && 0 <= j < items.len() && i != j && matches_query(
                items[i],
                query,
            ) && is_same_key(
                all_updated(items, query, update)[j],
                all_updated(items, query, update)[i],
            )),
{
    law_delete(items, query);
    let after = all_updated(items, query, update);
    if forall|i: int| 0 <= i < items.len() ==> !matches_query(#[trigger] items[i], query) {
        lemma_none_selected(items, query);
    }
    assert forall|i: int| 0 <= i < items.len() && matches_query(#[trigger] items[i], query) implies selected(
        items,
        query,
        true,
    ).len() > 0 by {
        lemma_some_selected(items, query, i);
    }
    assert forall|i: int, j: int|
        #![trigger items[i], items[j]]
        0 <= i < items.len() && 0 <= j < items.len() && i != j && matches_query(items[i], query)
            && is_same_key(after[j], after[i]) implies clashes(items, query, after, i, j) by {}
    if exists|i: int, j: int| #[trigger] clashes(items, query, after, i, j) {
        let (i, j) = choose|i: int, j: int| #[trigger] clashes(items, query, after, i, j);
        assert(matches_query(items[i], query) && is_same_key(after[j], after[i]) && items[j]
            == items[j]);
    }
}

proof fn lemma_some_selected(items: Seq<ItemView>, query: ParsedView, i: int)
    requires
        0 <= i < items.len(),
        matches_query(items[i], query),
    ensures
        selected(items, query, true).len() > 0,
    decreases items.len(),
{
    if i < items.len() - 1 {
        lemma_some_selected(items.drop_last(), query, i);
    }
}

/// How the entries of a dictionary are read: the class, the data, what to hand out and
/// how much of it have names of their own; other names that begin with `r_`, `m_`, `u_` or
/// `v_` say nothing; and all others are attributes.
pub proof fn law_entry_is_read(parsed: ParsedView, text: Seq<char>, data: Seq<u8>, n: i64, t: bool)
    ensures
        ({
            let number = GuestView::Number {
                integer: n,
                bits: doubles::of_integer(n as int) as u64,
                truth: t,
            };
            &&& with_entry(parsed, Some("class"@), GuestView::Str(text)) == (ParsedView {
                class: Some(text),
                ..parsed
            })
            &&& with_entry(parsed, Some("v_Data"@), GuestView::Data(data)) == (ParsedView {
                data: Some(data),
                ..parsed
            })
            &&& with_entry(parsed, Some("v_Data"@), GuestView::Str(text)) == (ParsedView {
                data: Some(utf8::encode_utf8(text)),
                ..parsed
            })
            &&& with_entry(parsed, Some("r_Data"@), number) == (ParsedView {
                return_data: t,
                ..parsed
            })
            &&& with_entry(parsed, Some("r_Attributes"@), number) == (ParsedView {
                return_attributes: t,
                ..parsed
            })
            &&& with_entry(parsed, Some("m_Limit"@), GuestView::Str("m_LimitAll"@)) == (ParsedView {
                limit: MatchLimit::All,
                ..parsed
            })
            &&& text != "m_LimitAll"@ ==> with_entry(
                parsed,
                Some("m_Limit"@),
                GuestView::Str(text),
            ) == (ParsedView { limit: MatchLimit::One, ..parsed })
            &&& !doubles::is_nan(doubles::of_integer(n as int) as u64) ==> with_entry(
                parsed,
                Some("m_Limit"@),
                number,
            ) == (ParsedView {
                limit: if n > 1 {
                    MatchLimit::Count(n as u64)
                } else {
                    MatchLimit::One
                },
                ..parsed
            })
            &&& with_entry(parsed, None, GuestView::Str(text)) == parsed
            &&& with_entry(parsed, Some(text), GuestView::Nil) == parsed
        }),
{
    lemma_entry_names_differ();
}

/// See `law_entry_is_read`.
pub proof fn law_attribute_is_read(parsed: ParsedView, name: Seq<char>, text: Seq<char>)
    requires
        !set!["class"@, "v_Data"@, "r_Data"@, "r_Attributes"@, "m_Limit"@].contains(name),
    ensures
        ({
            let says_nothing = name.len() >= 2 && (name.take(2) == seq!['r', '_'] || name.take(2)
                == seq!['m', '_'] || name.take(2) == seq!['u', '_'] || name.take(2) == seq![
                'v',
                '_',
            ]);
            with_entry(parsed, Some(name), GuestView::Str(text)) == if says_nothing {
                parsed
            } else {
                ParsedView { attrs: parsed.attrs.push((name, KcView::Str(text))), ..parsed }
            }
        }),
{
    let names = set!["class"@, "v_Data"@, "r_Data"@, "r_Attributes"@, "m_Limit"@];
    assert(names.contains("class"@) && names.contains("v_Data"@) && names.contains("r_Data"@)
        && names.contains("r_Attributes"@) && names.contains("m_Limit"@));
    if name.len() >= 2 {
        assert(name.take(2) =~= seq![name[0], name[1]]);
        assert(seq!['r', '_'][0] == 'r' && seq!['m', '_'][0] == 'm' && seq!['u', '_'][0] == 'u'
            && seq!['v', '_'][0] == 'v' && seq!['r', '_'][1] == '_' && seq!['m', '_'][1] == '_'
            && seq!['u', '_'][1] == '_' && seq!['v', '_'][1] == '_');
        assert(name.take(2)[0] == name[0] && name.take(2)[1] == name[1]);
    }
}

proof fn lemma_entry_names_differ()
    ensures
        "class"@ != "v_Data"@,
        "class"@ != "r_Data"@,
        "class"@ != "r_Attributes"@,
        "class"@ != "m_Limit"@,
        "v_Data"@ != "r_Data"@,
        "v_Data"@ != "r_Attributes"@,
        "v_Data"@ != "m_Limit"@,
        "r_Data"@ != "r_Attributes"@,
        "r_Data"@ != "m_Limit"@,
        "r_Attributes"@ != "m_Limit"@,
{
    reveal_strlit("class");
    reveal_strlit("v_Data");
    reveal_strlit("r_Data");
    reveal_strlit("r_Attributes");
    reveal_strlit("m_Limit");
    assert("class"@[0] == 'c');
    assert("v_Data"@[0] == 'v');
    assert("r_Data"@[0] == 'r');
    assert("r_Attributes"@[0] == 'r' && "r_Attributes"@[2] == 'A' && "r_Data"@[2] == 'D');
    assert("m_Limit"@[0] == 'm');
}

/// What a value of the guest is stored as: a text and data as they are, a number as an
/// integer where it is one, and else as a real number; nothing else is stored.
pub proof fn law_guest_values(text: Seq<char>, data: Seq<u8>, n: i64, bits: u64, truth: bool)
    ensures
        guest_value_of(GuestView::Str(text)) == Some(KcView::Str(text)),
        guest_value_of(GuestView::Data(data)) == Some(KcView::Data(data)),
        bits == doubles::of_integer(n as int) && !doubles::is_nan(bits) ==> guest_value_of(
            GuestView::Number { integer: n, bits, truth },
        ) == Some(KcView::Int(n)),
        !doubles::equal(doubles::of_integer(n as int) as u64, bits) ==> guest_value_of(
            GuestView::Number { integer: n, bits, truth },
        ) == Some(KcView::Real(bits)),
        guest_value_of(GuestView::Nil) is None && guest_value_of(GuestView::Other) is None,
{
}

/// A dictionary is read entry by entry; one without entries asks for nothing, and for one
/// match at most.
pub proof fn law_dictionary_is_read(
    entries: Seq<(Option<Seq<char>>, GuestView)>,
    key: Seq<char>,
    value: GuestView,
)
    ensures
        parsed_dict(entries.push((Some(key), value))) == with_entry(
            parsed_dict(entries),
            Some(key),
            value,
        ),
        parsed_dict(entries.push((None, value))) == parsed_dict(entries),
        ({
            let empty = parsed_dict(Seq::empty());
            &&& empty.class is None && empty.data is None && empty.attrs.len() == 0
            &&& !empty.return_data && !empty.return_attributes && empty.limit is One
        }),
{
    assert(entries.push((Some(key), value)).drop_last() =~= entries);
    assert(entries.push((None, value)).drop_last() =~= entries);
}

/// A change that is made succeeds with its answer, and writes the items. One that is
/// refused has the status for that, no answer, and writes nothing.
pub proof fn law_change_outcome(
    change: KcChange,
    after: Seq<ItemView>,
    refused: i32,
    answer: Option<AnswerView>,
)
    ensures
        is_change(change, Err::<Seq<ItemView>, i32>(refused), answer) ==> change.status == refused
            && change.file is None && change.answer is None,
        is_change(change, Ok::<Seq<ItemView>, i32>(after), answer) && change.file is Some
            ==> change.status == 0 && answer_view(change.answer) == answer && data_view(change.file)
            == plist_value::plist_xml(document_of(after)),
        is_change(change, Ok::<Seq<ItemView>, i32>(after), answer) && change.file is None
            ==> change.status != 0 && change.answer is None,
{
}

} // verus!
