//! HTTP header maps: what they hold, and the calls into the `http` crate (through the
//! re-exports of `reqwest`) that read and change them.
use reqwest::header::{HeaderMap, HeaderName, HeaderValue};
use reqwest::Method;
use vstd::prelude::*;
use vstd::utf8::{encode_utf8, is_ascii_chars};

verus! {

/// Names and values of a header block: for each name the bytes of its values, in order.
pub type Fields = Map<Seq<char>, Seq<Seq<u8>>>;

/// The most names with which a header map surely has room for another.
///
/// A map refuses to grow beyond 32768 slots. It doubles its slots when three quarters of them
/// are taken, and, after many collisions, already when a fifth of them are. So with more names
/// than this it depends on how they collide whether there is room for one more.
pub const MAX_NAMES: usize = 6553;

/// `http::HeaderMap`, a multimap from header names to lists of values.
#[verifier::external_type_specification]
#[verifier::external_body]
#[verifier::reject_recursive_types(T)]
pub struct ExHeaderMap<T>(HeaderMap<T>);

/// `http::HeaderValue`, the values that the maps here hold.
#[verifier::external_type_specification]
#[verifier::external_body]
pub struct ExHeaderValue(HeaderValue);

/// What a header map holds: for each name the bytes of its values in the order in which they
/// were added.
pub uninterp spec fn header_fields(map: HeaderMap<HeaderValue>) -> Map<Seq<char>, Seq<Seq<u8>>>;

/// The characters of header names, which are kept in lower case.
pub open spec fn is_name_char(c: char) -> bool {
    ||| '!' <= c <= '\''
    ||| c == '*'
    ||| c == '+'
    ||| c == '-'
    ||| c == '.'
    ||| '0' <= c <= '9'
    ||| '^' <= c <= 'z'
    ||| c == '|'
    ||| c == '~'
}

/// Whether `name` is a header name in the form in which maps keep it.
pub open spec fn is_header_name(name: Seq<char>) -> bool {
    &&& 1 <= name.len() <= 0xffff
    &&& forall|i: int| 0 <= i < name.len() ==> is_name_char(#[trigger] name[i])
}

/// Whether `name` consists of ASCII characters other than capital letters.
pub open spec fn is_lower_ascii(name: Seq<char>) -> bool {
    &&& is_ascii_chars(name)
    &&& forall|i: int| 0 <= i < name.len() ==> !('A' <= #[trigger] name[i] <= 'Z')
}

/// The lower-case form of an ASCII byte, as a character.
pub open spec fn lower_char(b: u8) -> char {
    if 'A' as u8 <= b <= 'Z' as u8 {
        (b + 32) as char
    } else {
        b as char
    }
}

/// The header name that some bytes spell, in the form in which maps keep it.
pub open spec fn spelled_name(bytes: Seq<u8>) -> Option<Seq<char>> {
    let name = Seq::new(bytes.len(), |i: int| lower_char(bytes[i]));
    if is_header_name(name) {
        Some(name)
    } else {
        None
    }
}

/// Whether some bytes may be a header value: no control characters but the tab.
pub open spec fn is_header_value(value: Seq<u8>) -> bool {
    forall|i: int|
        0 <= i < value.len() ==> ((#[trigger] value[i]) >= 32 && value[i] != 127) || value[i] == 9
}

/// Whether a header value reads as text: visible ASCII characters, spaces and tabs.
pub open spec fn is_text_value(value: Seq<u8>) -> bool {
    forall|i: int| 0 <= i < value.len() ==> 32 <= (#[trigger] value[i]) < 127 || value[i] == 9
}

/// The characters of a value that reads as text.
pub open spec fn value_text(value: Seq<u8>) -> Seq<char> {
    Seq::new(value.len(), |i: int| value[i] as char)
}

/// The values that a list of headers has under `name`, in order.
pub open spec fn values_of(entries: Seq<(String, Vec<u8>)>, name: Seq<char>) -> Seq<Seq<u8>>
    decreases entries.len(),
{
    if entries.len() == 0 {
        Seq::empty()
    } else {
        let earlier = values_of(entries.drop_last(), name);
        if entries.last().0@ == name {
            earlier.push(entries.last().1@)
        } else {
            earlier
        }
    }
}

/// Whether a list of headers holds, name by name, the values of `fields`.
pub open spec fn lists(entries: Seq<(String, Vec<u8>)>, fields: Fields) -> bool {
    forall|name: Seq<char>| #[trigger]
        values_of(entries, name) == if fields.contains_key(name) {
            fields[name]
        } else {
            Seq::empty()
        }
}

/// `HeaderMap::new` gives a map without headers.
#[verifier::external_body]
pub(crate) fn empty_headers() -> (map: HeaderMap<HeaderValue>)
    ensures
        header_fields(map) == Fields::empty(),
{
    HeaderMap::new()
}

/// `HeaderMap::iter` hands out every header once per value, the values of one name in the
/// order in which they were added; a name without values is not in the map. The names are in
/// lower case.
///
/// The order in which the names come is left unsaid.
#[verifier::external_body]
pub(crate) fn header_entries(map: &HeaderMap<HeaderValue>) -> (entries: Vec<(String, Vec<u8>)>)
    ensures
        lists(entries@, header_fields(*map)),
        forall|name: Seq<char>| #[trigger]
            header_fields(*map).contains_key(name) ==> values_of(entries@, name).len() > 0,
        forall|i: int| 0 <= i < entries.len() ==> is_lower_ascii((#[trigger] entries[i]).0@),
{
    map.iter().map(|(n, v)| (n.as_str().to_string(), v.as_bytes().to_vec())).collect()
}

/// `HeaderMap::get` gives the first value under a name.
#[verifier::external_body]
pub(crate) fn first_value(map: &HeaderMap<HeaderValue>, name: &str) -> (value: Option<Vec<u8>>)
    requires
        is_header_name(name@),
    ensures
        value is Some == header_fields(*map).contains_key(name@),
        value matches Some(v) ==> header_fields(*map)[name@].len() > 0 && v@ == header_fields(
            *map,
        )[name@][0],
{
    map.get(name).map(|v| v.as_bytes().to_vec())
}

/// `HeaderMap::try_insert` makes a value the only one under a name. It refuses, and leaves the
/// map alone, only where there is no room.
#[verifier::external_body]
pub(crate) fn insert_header(
    map: &mut HeaderMap<HeaderValue>,
    name: &str,
    value: &[u8],
) -> (done: bool)
    requires
        is_header_name(name@),
        is_header_value(value@),
    ensures
        header_fields(*final(map)) == if done {
            header_fields(*old(map)).insert(name@, seq![value@])
        } else {
            header_fields(*old(map))
        },
        header_fields(*old(map)).dom().len() <= MAX_NAMES ==> done,
{
    map.try_insert(
        HeaderName::from_bytes(name.as_bytes()).unwrap(),
        HeaderValue::from_bytes(value).unwrap(),
    ).is_ok()
}

/// `HeaderMap::try_entry` with `Entry::or_try_insert` adds a value under a name that has none,
/// and leaves the map alone where the name is there. It refuses, and leaves the map alone, only
/// where there is no room.
#[verifier::external_body]
pub(crate) fn insert_if_absent(
    map: &mut HeaderMap<HeaderValue>,
    name: &str,
    value: &[u8],
) -> (done: bool)
    requires
        is_header_name(name@),
        is_header_value(value@),
    ensures
        header_fields(*final(map)) == if done && !header_fields(*old(map)).contains_key(name@) {
            header_fields(*old(map)).insert(name@, seq![value@])
        } else {
            header_fields(*old(map))
        },
        header_fields(*old(map)).dom().len() <= MAX_NAMES ==> done,
{
    match map.try_entry(HeaderName::from_bytes(name.as_bytes()).unwrap()) {
        Ok(entry) => entry.or_try_insert(HeaderValue::from_bytes(value).unwrap()).is_ok(),
        Err(_) => false,
    }
}

/// `HeaderMap::try_append` adds a value behind those that a name has. It refuses, and leaves the
/// map alone, only where there is no room.
#[verifier::external_body]
pub(crate) fn append_header(
    map: &mut HeaderMap<HeaderValue>,
    name: &str,
    value: &[u8],
) -> (done: bool)
    requires
        is_header_name(name@),
        is_header_value(value@),
    ensures
        header_fields(*final(map)) == if done {
            header_fields(*old(map)).insert(
                name@,
                if header_fields(*old(map)).contains_key(name@) {
                    header_fields(*old(map))[name@].push(value@)
                } else {
                    seq![value@]
                },
            )
        } else {
            header_fields(*old(map))
        },
        header_fields(*old(map)).dom().len() <= MAX_NAMES ==> done,
{
    map.try_append(
        HeaderName::from_bytes(name.as_bytes()).unwrap(),
        HeaderValue::from_bytes(value).unwrap(),
    ).is_ok()
}

/// `HeaderName::from_bytes` takes from 1 to 65535 bytes that all belong to header names, and
/// puts them in lower case.
#[verifier::external_body]
pub(crate) fn parse_name(bytes: &[u8]) -> (name: Option<String>)
    ensures
        name is Some == spelled_name(bytes@) is Some,
        name matches Some(n) ==> spelled_name(bytes@) == Some(n@),
{
    HeaderName::from_bytes(bytes).ok().map(|n| n.as_str().to_string())
}

/// `HeaderValue::from_bytes` takes bytes that are no control characters but the tab.
#[verifier::external_body]
pub(crate) fn takes_bytes(value: &[u8]) -> (b: bool)
    ensures
        b == is_header_value(value@),
{
    HeaderValue::from_bytes(value).is_ok()
}

/// `HeaderValue::from_str` takes text whose bytes are no control characters but the tab.
#[verifier::external_body]
pub(crate) fn takes_text(value: &str) -> (b: bool)
    ensures
        b == is_header_value(encode_utf8(value@)),
{
    HeaderValue::from_str(value).is_ok()
}

/// `HeaderValue::to_str` reads a value of visible ASCII characters, spaces and tabs as text,
/// and no other.
#[verifier::external_body]
pub(crate) fn read_text(value: &[u8]) -> (text: Option<String>)
    ensures
        text is Some == is_text_value(value@),
        text matches Some(t) ==> t@ == value_text(value@),
{
    HeaderValue::from_bytes(value).ok().and_then(|v| v.to_str().ok().map(|t| t.to_string()))
}

/// The bytes of request methods.
pub open spec fn is_method_byte(b: u8) -> bool {
    ||| b == '!' as u8
    ||| b == '*' as u8
    ||| b == '+' as u8
    ||| b == '-' as u8
    ||| b == '.' as u8
    ||| '0' as u8 <= b <= '9' as u8
    ||| 'A' as u8 <= b <= 'Z' as u8
    ||| '^' as u8 <= b <= 'z' as u8
    ||| b == '|' as u8
    ||| b == '~' as u8
}

/// Whether some bytes are a request method.
pub open spec fn is_method(bytes: Seq<u8>) -> bool {
    &&& bytes.len() > 0
    &&& forall|i: int| 0 <= i < bytes.len() ==> is_method_byte(#[trigger] bytes[i])
}

/// `Method::from_bytes` takes one or more bytes that all belong to methods, and keeps them as
/// they are.
#[verifier::external_body]
pub(crate) fn parse_method(bytes: &[u8]) -> (method: Option<String>)
    ensures
        method is Some == is_method(bytes@),
        method matches Some(m) ==> m@ == value_text(bytes@),
{
    Method::from_bytes(bytes).ok().map(|m| m.as_str().to_string())
}

/// A name that a map keeps is spelled by its own bytes, or is no header name.
pub(crate) proof fn lemma_name_spells_itself(name: Seq<char>)
    requires
        is_lower_ascii(name),
    ensures
        spelled_name(encode_utf8(name)) == if is_header_name(name) {
            Some(name)
        } else {
            None::<Seq<char>>
        },
{
    vstd::utf8::is_ascii_chars_encode_utf8(name);
    let bytes = encode_utf8(name);
    assert(bytes.len() == name.len());
    assert(Seq::new(bytes.len(), |i: int| lower_char(bytes[i])) == name);
}

/// A header in the list puts its value among those of its name.
pub(crate) proof fn lemma_listed(entries: Seq<(String, Vec<u8>)>, i: int)
    requires
        0 <= i < entries.len(),
    ensures
        values_of(entries, entries[i].0@).len() > 0,
    decreases entries.len(),
{
    if i < entries.len() - 1 {
        assert(entries.drop_last()[i] == entries[i]);
        lemma_listed(entries.drop_last(), i);
    }
}

/// A name that has values in the list is the name of a header in it.
proof fn lemma_named(entries: Seq<(String, Vec<u8>)>, name: Seq<char>)
    requires
        values_of(entries, name).len() > 0,
    ensures
        entries.map_values(|e: (String, Vec<u8>)| e.0@).contains(name),
    decreases entries.len(),
{
    let names = entries.map_values(|e: (String, Vec<u8>)| e.0@);
    if entries.last().0@ == name {
        assert(names[entries.len() - 1] == name);
    } else {
        lemma_named(entries.drop_last(), name);
        let earlier = entries.drop_last().map_values(|e: (String, Vec<u8>)| e.0@);
        let k = earlier.index_of(name);
        assert(names[k] == name);
    }
}

/// A block of headers that a list spells out has finitely many names.
pub(crate) proof fn lemma_finitely_many_names(entries: Seq<(String, Vec<u8>)>, fields: Fields)
    requires
        forall|name: Seq<char>| #[trigger]
            fields.contains_key(name) ==> values_of(entries, name).len() > 0,
    ensures
        fields.dom().finite(),
{
    let names = entries.map_values(|e: (String, Vec<u8>)| e.0@);
    vstd::seq_lib::seq_to_set_is_finite(names);
    assert forall|name: Seq<char>| fields.dom().contains(name) implies names.to_set().contains(
        name,
    ) by {
        assert(fields.contains_key(name));
        lemma_named(entries, name);
    }
    vstd::set_lib::lemma_len_subset(fields.dom(), names.to_set());
}

/// A header value may hold every byte but the control characters, of which only the tab is
/// accepted.
pub proof fn law_header_values(value: Seq<u8>)
    ensures
        is_header_value(value) <==> forall|i: int|
            0 <= i < value.len() ==> !((#[trigger] value[i]) < 9 || 9 < value[i] < 32 || value[i]
                == 127),
        is_text_value(value) <==> is_header_value(value) && forall|i: int|
            0 <= i < value.len() ==> (#[trigger] value[i]) < 128,
{
    assert forall|i: int| 0 <= i < value.len() && is_header_value(value) implies !((
    #[trigger] value[i]) < 9 || 9 < value[i] < 32 || value[i] == 127) by {}
    assert forall|i: int| 0 <= i < value.len() && is_text_value(value) implies (
    #[trigger] value[i]) < 128 && !(value[i] < 9 || 9 < value[i] < 32 || value[i] == 127) by {}
    if is_text_value(value) {
        assert(is_header_value(value));
    }
}

/// Methods and, in lower case, header names are made of letters, digits and a few signs; a header
/// name has from 1 to 65535 of these, a method at least one.
pub proof fn law_method_and_name_bytes(b: u8, name: Seq<char>, bytes: Seq<u8>)
    ensures
        is_method_byte(b) <==> {
            ||| 65 <= b <= 90
            ||| 97 <= b <= 122
            ||| 48 <= b <= 57
            ||| seq![33u8, 42, 43, 45, 46, 94, 95, 96, 124, 126].contains(b)
        },
        is_name_char(b as char) <==> {
            ||| 97 <= b <= 122
            ||| 48 <= b <= 57
            ||| seq![33u8, 34, 35, 36, 37, 38, 39, 42, 43, 45, 46, 94, 95, 96, 124, 126].contains(b)
        },
        is_header_name(name) <==> 0 < name.len() < 65536 && forall|i: int|
            0 <= i < name.len() ==> is_name_char(#[trigger] name[i]),
        is_method(bytes) <==> bytes.len() != 0 && forall|i: int|
            0 <= i < bytes.len() ==> is_method_byte(#[trigger] bytes[i]),
{
    let method_signs = seq![33u8, 42, 43, 45, 46, 94, 95, 96, 124, 126];
    let name_signs = seq![33u8, 34, 35, 36, 37, 38, 39, 42, 43, 45, 46, 94, 95, 96, 124, 126];
    assert(method_signs[0] == 33 && method_signs[1] == 42 && method_signs[2] == 43
        && method_signs[3] == 45 && method_signs[4] == 46 && method_signs[5] == 94
        && method_signs[6] == 95 && method_signs[7] == 96 && method_signs[8] == 124
        && method_signs[9] == 126);
    assert(name_signs[0] == 33 && name_signs[1] == 34 && name_signs[2] == 35 && name_signs[3] == 36
        && name_signs[4] == 37 && name_signs[5] == 38 && name_signs[6] == 39 && name_signs[7] == 42
        && name_signs[8] == 43 && name_signs[9] == 45 && name_signs[10] == 46 && name_signs[11]
        == 94 && name_signs[12] == 95 && name_signs[13] == 96 && name_signs[14] == 124
        && name_signs[15] == 126);
}

/// Bytes spell a header name byte by byte, capital letters in lower case; bytes that differ only
/// in case spell the same name, and what has no place in a name spells none.
pub proof fn law_names_are_kept_in_lower_case(bytes: Seq<u8>, other: Seq<u8>, i: int)
    requires
        bytes.len() == other.len(),
        forall|k: int|
            0 <= k < bytes.len() ==> (#[trigger] other[k]) == bytes[k] || (65 <= bytes[k] <= 90
                && other[k] == bytes[k] + 32),
    ensures
        spelled_name(bytes) == spelled_name(other),
        spelled_name(bytes) matches Some(name) ==> name.len() == bytes.len() && is_header_name(name)
            && (0 <= i < bytes.len() ==> name[i] == (if 65 <= bytes[i] <= 90 {
            (bytes[i] + 32) as char
        } else {
            bytes[i] as char
        })),
        is_header_name(value_text(bytes)) ==> spelled_name(bytes) == Some(value_text(bytes)),
        0 <= i < bytes.len() && !is_method_byte(bytes[i]) && !(34 <= bytes[i] <= 39)
            ==> spelled_name(bytes) is None,
        bytes.len() == 0 || bytes.len() > 65535 ==> spelled_name(bytes) is None,
{
    let name = Seq::new(bytes.len(), |k: int| lower_char(bytes[k]));
    let other_name = Seq::new(other.len(), |k: int| lower_char(other[k]));
    assert forall|k: int| 0 <= k < bytes.len() implies name[k] == other_name[k] by {
        assert(other[k] == bytes[k] || (65 <= bytes[k] <= 90 && other[k] == bytes[k] + 32));
    }
    assert(name =~= other_name);
    let text = value_text(bytes);
    if is_header_name(text) {
        assert forall|k: int| 0 <= k < bytes.len() implies name[k] == text[k] by {
            assert(is_name_char(text[k]));
        }
        assert(name =~= text);
    }
    if 0 <= i < bytes.len() && !is_method_byte(bytes[i]) && !(34 <= bytes[i] <= 39) {
        assert(!is_name_char(name[i]));
    }
}

} // verus!
