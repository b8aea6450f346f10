//! What a proxied request carries on to the backend, and by what address its sender is known.
use crate::headers::{
    empty_headers, first_value, header_entries, header_fields, insert_header,
    insert_if_absent, is_header_name, is_header_value, is_lower_ascii, is_text_value,
    lemma_finitely_many_names, lemma_listed, lemma_name_spells_itself, lists, parse_name,
    read_text, takes_bytes, takes_text, value_text, values_of, Fields, MAX_NAMES,
};
use crate::text::{
    before_first, is_core, law_before_first, law_trimmed_is_the_core, optional, same,
    segment_before, trim, trimmed,
};
use reqwest::header::{HeaderMap, HeaderValue};
use vstd::prelude::*;
use vstd::utf8::encode_utf8;

verus! {

/// The values among `values` that a header may have.
pub open spec fn acceptable(values: Seq<Seq<u8>>) -> Seq<Seq<u8>> {
    values.filter(|v: Seq<u8>| is_header_value(v))
}

/// The headers of a request that are passed on: all but the host, each with its last value.
pub open spec fn carried(incoming: Fields) -> Fields {
    Map::new(
        |name: Seq<char>|
            incoming.contains_key(name) && name != "host"@ && is_header_name(name) && acceptable(
                incoming[name],
            ).len() > 0,
        |name: Seq<char>| seq![acceptable(incoming[name]).last()],
    )
}

/// The chain of addresses that a request has come through, with the client's added.
pub open spec fn address_chain(existing: Option<Seq<char>>, ip: Seq<char>) -> Seq<char> {
    match existing {
        Some(chain) => chain + ", "@ + ip,
        None => ip,
    }
}

/// The first value under `name`, where it reads as text.
pub open spec fn text_under(fields: Fields, name: Seq<char>) -> Option<Seq<char>> {
    if fields.contains_key(name) && is_text_value(fields[name][0]) {
        Some(value_text(fields[name][0]))
    } else {
        None
    }
}

/// `fields` with the client's address added.
pub open spec fn with_client(fields: Fields, ip: Seq<char>) -> Fields {
    let chain = encode_utf8(address_chain(text_under(fields, "x-forwarded-for"@), ip));
    let chained = if is_header_value(chain) {
        fields.insert("x-forwarded-for"@, seq![chain])
    } else {
        fields
    };
    if is_header_value(encode_utf8(ip)) && !chained.contains_key("x-real-ip"@) {
        chained.insert("x-real-ip"@, seq![encode_utf8(ip)])
    } else {
        chained
    }
}

/// The headers that go to the backend for a request with headers `incoming` that came from
/// the given address.
pub open spec fn forwarded(incoming: Fields, client_ip: Option<Seq<char>>) -> Fields {
    let base = carried(incoming);
    let known = match client_ip {
        Some(ip) => with_client(base, ip),
        None => base,
    };
    if known.contains_key("x-forwarded-proto"@) {
        known
    } else {
        known.insert("x-forwarded-proto"@, seq![encode_utf8("http"@)])
    }
}

/// What is passed on of the headers in a list.
spec fn carried_from(entries: Seq<(String, Vec<u8>)>) -> Fields {
    Map::new(
        |name: Seq<char>|
            name != "host"@ && is_header_name(name) && acceptable(values_of(entries, name)).len()
                > 0,
        |name: Seq<char>| seq![acceptable(values_of(entries, name)).last()],
    )
}

/// Another header in the list replaces what was passed on under its name, unless it is the
/// host, or its name or value is not acceptable.
proof fn lemma_carried_step(entries: Seq<(String, Vec<u8>)>, entry: (String, Vec<u8>))
    ensures
        carried_from(entries.push(entry)) == if entry.0@ != "host"@ && is_header_name(entry.0@)
            && is_header_value(entry.1@) {
            carried_from(entries).insert(entry.0@, seq![entry.1@])
        } else {
            carried_from(entries)
        },
{
    let grown = entries.push(entry);
    assert(grown.drop_last() == entries);
    assert forall|name: Seq<char>| #[trigger] acceptable(values_of(grown, name)) == if entry.0@
        == name && is_header_value(entry.1@) {
        acceptable(values_of(entries, name)).push(entry.1@)
    } else {
        acceptable(values_of(entries, name))
    } by {
        reveal_with_fuel(Seq::filter, 2);
        if entry.0@ == name {
            let earlier = values_of(entries, name);
            assert(earlier.push(entry.1@).drop_last() == earlier);
        }
    }
    let stepped = if entry.0@ != "host"@ && is_header_name(entry.0@) && is_header_value(entry.1@) {
        carried_from(entries).insert(entry.0@, seq![entry.1@])
    } else {
        carried_from(entries)
    };
    assert forall|name: Seq<char>| true implies #[trigger] carried_from(grown).contains_key(name)
        == stepped.contains_key(name) && (stepped.contains_key(name) ==> carried_from(grown)[name]
        == stepped[name]) by {
        let _ = acceptable(values_of(grown, name));
    }
    assert(carried_from(grown) =~= stepped);
}

/// The headers of the incoming request that are passed on, where there is room for them.
fn carry(incoming: &HeaderMap<HeaderValue>) -> (carried_on: Option<HeaderMap<HeaderValue>>)
    ensures
        carried_on matches Some(headers) ==> {
            &&& header_fields(headers) == carried(header_fields(*incoming))
            &&& header_fields(headers).dom().finite()
            &&& header_fields(headers).dom().len() <= header_fields(*incoming).dom().len()
        },
        header_fields(*incoming).dom().len() <= MAX_NAMES ==> carried_on is Some,
{
    let entries = header_entries(incoming);
    let ghost fields = header_fields(*incoming);
    let mut headers = empty_headers();
    let mut i: usize = 0;
    proof {
        lemma_finitely_many_names(entries@, fields);
        assert(entries@.take(0) == Seq::<(String, Vec<u8>)>::empty());
    }
    while i < entries.len()
        invariant
            i <= entries.len(),
            lists(entries@, fields),
            fields.dom().finite(),
            fields == header_fields(*incoming),
            header_fields(headers).dom().subset_of(fields.dom()),
            forall|k: int| 0 <= k < entries.len() ==> is_lower_ascii((#[trigger] entries[k]).0@),
            header_fields(headers) == carried_from(entries@.take(i as int)),
        decreases entries.len() - i,
    {
        let ghost seen = entries@.take(i as int);
        let ghost name = entries[i as int].0@;
        let ghost before = header_fields(headers);
        proof {
            lemma_listed(entries@, i as int);
            assert(values_of(entries@, name).len() > 0);
            assert(fields.dom().contains(name));
            lemma_name_spells_itself(name);
            vstd::set_lib::lemma_len_subset(before.dom(), fields.dom());
        }
        if !same(entries[i].0.as_str(), "host") {
            let parsed = parse_name(entries[i].0.as_str().as_bytes());
            let valid = takes_bytes(entries[i].1.as_slice());
            if let Some(n) = parsed {
                if valid {
                    if !insert_header(&mut headers, n.as_str(), entries[i].1.as_slice()) {
                        return None;
                    }
                }
            }
        }
        proof {
            lemma_carried_step(seen, entries@[i as int]);
            assert(entries@.take(i + 1) == seen.push(entries@[i as int]));
        }
        i = i + 1;
    }
    proof {
        assert(entries@.take(i as int) == entries@);
        assert forall|n: Seq<char>| true implies carried_from(entries@).contains_key(n) == carried(
            fields,
        ).contains_key(n) && (carried(fields).contains_key(n) ==> carried_from(entries@)[n]
            == carried(fields)[n]) by {
            assert(values_of(entries@, n) == if fields.contains_key(n) {
                fields[n]
            } else {
                Seq::empty()
            });
        }
        assert(carried_from(entries@) =~= carried(fields));
        vstd::set_lib::lemma_len_subset(header_fields(headers).dom(), fields.dom());
    }
    Some(headers)
}

/// The literal names and values that forwarding writes are acceptable.
proof fn lemma_literals()
    ensures
        is_header_name("x-forwarded-for"@),
        is_header_name("x-real-ip"@),
        is_header_name("x-forwarded-proto"@),
        is_header_value(encode_utf8("http"@)),
{
    reveal_strlit("x-forwarded-for");
    reveal_strlit("x-real-ip");
    reveal_strlit("x-forwarded-proto");
    reveal_strlit("http");
    assert(vstd::utf8::is_ascii_chars("http"@));
    vstd::utf8::is_ascii_chars_encode_utf8("http"@);
}

/// The chain of addresses that a request has come through, with the client's added.
pub fn extend_chain(existing: Option<&str>, ip: &str) -> (chain: String)
    ensures
        chain@ == address_chain(optional(existing), ip@),
{
    match existing {
        Some(e) => {
            let mut chain = e.to_owned();
            chain.append(", ");
            chain.append(ip);
            chain
        },
        None => ip.to_owned(),
    }
}

/// The first value under a name, where it reads as text.
fn header_text(headers: &HeaderMap<HeaderValue>, name: &str) -> (text: Option<String>)
    requires
        is_header_name(name@),
    ensures
        text is Some == text_under(header_fields(*headers), name@) is Some,
        text matches Some(t) ==> text_under(header_fields(*headers), name@) == Some(t@),
{
    match first_value(headers, name) {
        Some(value) => read_text(value.as_slice()),
        None => None,
    }
}

/// Adds the client's address to the headers, where there is room for it.
fn add_client(headers: &mut HeaderMap<HeaderValue>, ip: &str) -> (done: bool)
    requires
        header_fields(*old(headers)).dom().finite(),
    ensures
        done ==> {
            &&& header_fields(*final(headers)) == with_client(header_fields(*old(headers)), ip@)
            &&& header_fields(*final(headers)).dom().finite()
            &&& header_fields(*final(headers)).dom().len() <= header_fields(
                *old(headers),
            ).dom().len() + 2
        },
        header_fields(*old(headers)).dom().len() < MAX_NAMES ==> done,
{
    proof {
        lemma_literals();
    }
    let existing = header_text(headers, "x-forwarded-for");
    let chain = match existing {
        Some(e) => extend_chain(Some(e.as_str()), ip),
        None => extend_chain(None, ip),
    };
    if takes_text(chain.as_str()) {
        if !insert_header(headers, "x-forwarded-for", chain.as_str().as_bytes()) {
            return false;
        }
    }
    if takes_text(ip) {
        if !insert_if_absent(headers, "x-real-ip", ip.as_bytes()) {
            return false;
        }
    }
    true
}

/// The headers that go to the backend for a request that came from the given address.
///
/// A header map can run out of room. With up to `MAX_NAMES` names, two of which forwarding may
/// add before its last header, it does not; with more that depends on how the names collide.
pub fn forward_headers(
    incoming: &HeaderMap<HeaderValue>,
    client_ip: Option<&str>,
) -> (outgoing: Option<HeaderMap<HeaderValue>>)
    ensures
        outgoing matches Some(headers) ==> header_fields(headers) == forwarded(
            header_fields(*incoming),
            optional(client_ip),
        ),
        header_fields(*incoming).dom().len() + 2 <= MAX_NAMES ==> outgoing is Some,
{
    let mut headers = match carry(incoming) {
        Some(headers) => headers,
        None => {
            return None;
        },
    };
    if let Some(ip) = client_ip {
        if !add_client(&mut headers, ip) {
            return None;
        }
    }
    proof {
        lemma_literals();
    }
    if !insert_if_absent(&mut headers, "x-forwarded-proto", "http".as_bytes()) {
        return None;
    }
    Some(headers)
}

/// The address by which a client is known: the first of those that the request says it was
/// forwarded for, else the address of the connection, else the unspecified address.
pub open spec fn known_as(forwarded_for: Option<Seq<char>>, peer: Option<Seq<char>>) -> Seq<char> {
    match forwarded_for {
        Some(chain) => trimmed(before_first(chain, ',')),
        None => match peer {
            Some(ip) => ip,
            None => "0.0.0.0"@,
        },
    }
}

/// Picks the address by which a client is known.
pub fn pick_client_ip(forwarded_for: Option<&str>, peer: Option<&str>) -> (ip: String)
    ensures
        ip@ == known_as(optional(forwarded_for), optional(peer)),
{
    match forwarded_for {
        Some(chain) => trim(segment_before(chain, ',')).to_owned(),
        None => match peer {
            Some(ip) => ip.to_owned(),
            None => "0.0.0.0".to_owned(),
        },
    }
}

/// The address by which the sender of a request is known.
pub fn client_ip(peer: Option<&str>, headers: &HeaderMap<HeaderValue>) -> (ip: String)
    ensures
        ip@ == known_as(
            text_under(header_fields(*headers), "x-forwarded-for"@),
            optional(peer),
        ),
{
    proof {
        lemma_literals();
    }
    match header_text(headers, "x-forwarded-for") {
        Some(chain) => pick_client_ip(Some(chain.as_str()), peer),
        None => pick_client_ip(None, peer),
    }
}

/// The host that a request names is not passed on, and the protocol always is.
pub proof fn law_host_stays_behind(incoming: Fields, client_ip: Option<Seq<char>>)
    ensures
        !forwarded(incoming, client_ip).contains_key("host"@),
        forwarded(incoming, client_ip).contains_key("x-forwarded-proto"@),
{
    reveal_strlit("host");
    reveal_strlit("x-forwarded-for");
    reveal_strlit("x-real-ip");
    reveal_strlit("x-forwarded-proto");
    assert("host"@.len() != "x-forwarded-for"@.len());
    assert("host"@.len() != "x-real-ip"@.len());
    assert("host"@.len() != "x-forwarded-proto"@.len());
}

/// A header with one value that forwarding does not write itself arrives as it was sent.
pub proof fn law_other_headers_arrive_unchanged(
    incoming: Fields,
    client_ip: Option<Seq<char>>,
    name: Seq<char>,
)
    requires
        incoming.contains_key(name),
        is_header_name(name),
        incoming[name].len() == 1,
        is_header_value(incoming[name][0]),
        name != "host"@,
        client_ip is Some ==> name != "x-forwarded-for"@,
    ensures
        forwarded(incoming, client_ip).contains_key(name),
        forwarded(incoming, client_ip)[name] == incoming[name],
{
    lemma_single_value(incoming[name]);
}

/// A single acceptable value is the last acceptable one.
proof fn lemma_single_value(values: Seq<Seq<u8>>)
    requires
        values.len() == 1,
    ensures
        is_header_value(values[0]) ==> acceptable(values) == values,
        !is_header_value(values[0]) ==> acceptable(values).len() == 0,
{
    reveal_with_fuel(Seq::filter, 2);
    assert(values.drop_last() == Seq::<Seq<u8>>::empty());
    assert(values == seq![values[0]]);
}

/// Whether `ip` can be written as an address into a header and read back from it.
pub open spec fn is_plain_address(ip: Seq<char>) -> bool {
    &&& forall|i: int| 0 <= i < ip.len() ==> '!' <= #[trigger] ip[i] <= '~'
    &&& !ip.contains(',')
}

/// The bytes of text made of visible characters, spaces and tabs read back as that text.
proof fn lemma_text_reads_back(text: Seq<char>)
    requires
        forall|i: int| 0 <= i < text.len() ==> ' ' <= #[trigger] text[i] <= '~' || text[i] == '\t',
    ensures
        is_text_value(encode_utf8(text)),
        is_header_value(encode_utf8(text)),
        value_text(encode_utf8(text)) == text,
{
    assert forall|i: int| 0 <= i < text.len() implies '\0' <= #[trigger] text[i] <= '\u{7f}' by {}
    assert(vstd::utf8::is_ascii_chars(text));
    vstd::utf8::is_ascii_chars_encode_utf8(text);
    let bytes = encode_utf8(text);
    assert forall|i: int| 0 <= i < bytes.len() implies 32 <= (#[trigger] bytes[i]) < 127
        || bytes[i] == 9 by {
        assert(text[i] as u8 == bytes[i]);
    }
    assert(value_text(bytes) == text);
}

/// What comes before the first separator is the same after more has been put behind one.
proof fn lemma_before_first_of_longer(s: Seq<char>, separator: char, more: Seq<char>)
    requires
        more.len() > 0,
        more[0] == separator,
    ensures
        before_first(s + more, separator) == before_first(s, separator),
    decreases s.len(),
{
    if s.len() == 0 {
        assert(s + more == more);
    } else if s[0] != separator {
        assert((s + more).drop_first() == s.drop_first() + more);
        lemma_before_first_of_longer(s.drop_first(), separator, more);
    }
}

/// An address in which there is no separator is all that comes before the first one.
proof fn lemma_before_absent(s: Seq<char>, separator: char)
    requires
        !s.contains(separator),
    ensures
        before_first(s, separator) == s,
    decreases s.len(),
{
    if s.len() > 0 {
        assert(s[0] != separator);
        assert forall|i: int| 0 <= i < s.len() - 1 implies s.drop_first()[i] != separator by {
            assert(s[i + 1] != separator);
        }
        lemma_before_absent(s.drop_first(), separator);
        assert(seq![s[0]] + s.drop_first() == s);
    }
}

/// A client keeps its name along a chain of proxies: whoever receives the forwarded request
/// knows its sender by the same address as this proxy does.
pub proof fn law_client_is_known_downstream(
    incoming: Fields,
    ip: Seq<char>,
    next_peer: Option<Seq<char>>,
)
    requires
        is_plain_address(ip),
        incoming.contains_key("x-forwarded-for"@) ==> incoming["x-forwarded-for"@].len() == 1,
    ensures
        known_as(text_under(forwarded(incoming, Some(ip)), "x-forwarded-for"@), next_peer)
            == known_as(text_under(incoming, "x-forwarded-for"@), Some(ip)),
{
    let name = "x-forwarded-for"@;
    lemma_literals();
    reveal_strlit("host");
    reveal_strlit("x-forwarded-for");
    reveal_strlit("x-real-ip");
    reveal_strlit("x-forwarded-proto");
    reveal_strlit(", ");
    assert(name.len() != "host"@.len());
    assert(name.len() != "x-real-ip"@.len());
    assert(name.len() != "x-forwarded-proto"@.len());
    if incoming.contains_key(name) {
        lemma_single_value(incoming[name]);
    }
    let base = carried(incoming);
    let existing = text_under(base, name);
    assert(existing == text_under(incoming, name));
    let chain = address_chain(existing, ip);
    if let Some(e) = existing {
        assert forall|i: int| 0 <= i < chain.len() implies ' ' <= #[trigger] chain[i] <= '~'
            || chain[i] == '\t' by {
            if i < e.len() {
                assert(chain[i] == e[i]);
                assert(incoming[name][0][i] as char == e[i]);
            } else if i >= e.len() + 2 {
                assert(chain[i] == ip[i - e.len() - 2]);
            }
        }
        assert(chain == e + (", "@ + ip));
        lemma_before_first_of_longer(e, ',', ", "@ + ip);
    } else {
        lemma_before_absent(ip, ',');
        lemma_plain_is_trimmed(ip);
    }
    lemma_text_reads_back(chain);
    assert(forwarded(incoming, Some(ip))[name] == seq![encode_utf8(chain)]);
}

/// A plain address has no white space to trim.
proof fn lemma_plain_is_trimmed(ip: Seq<char>)
    requires
        is_plain_address(ip),
    ensures
        trimmed(ip) == ip,
{
    if ip.len() > 0 {
        assert('!' <= ip[0] <= '~');
        assert('!' <= ip[ip.len() - 1] <= '~');
    }
}

/// Whether the value at `i` is the last of `values` that a header may have.
pub open spec fn is_last_acceptable(values: Seq<Seq<u8>>, i: int) -> bool {
    &&& 0 <= i < values.len()
    &&& is_header_value(values[i])
    &&& forall|j: int| i < j < values.len() ==> !is_header_value(#[trigger] values[j])
}

/// Where the last acceptable value stands, if there is one.
proof fn lemma_last_acceptable(values: Seq<Seq<u8>>) -> (at: int)
    ensures
        acceptable(values).len() > 0 ==> is_last_acceptable(values, at) && acceptable(values).last()
            == values[at],
        acceptable(values).len() == 0 ==> forall|i: int|
            0 <= i < values.len() ==> !is_header_value(#[trigger] values[i]),
    decreases values.len(),
{
    reveal_with_fuel(Seq::filter, 2);
    if values.len() == 0 {
        0
    } else {
        let earlier = values.drop_last();
        let before = lemma_last_acceptable(earlier);
        if is_header_value(values.last()) {
            assert(acceptable(values) == acceptable(earlier).push(values.last()));
            values.len() - 1
        } else {
            assert(acceptable(values) == acceptable(earlier));
            assert forall|i: int| 0 <= i < values.len() - 1 implies #[trigger] values[i]
                == earlier[i] by {}
            before
        }
    }
}

/// Whether a request passes something on under a name, and what: the last acceptable of the
/// values that it has there.
pub open spec fn passes_on(sent: Fields, name: Seq<char>, i: int) -> bool {
    sent.contains_key(name) && is_header_name(name) && is_last_acceptable(sent[name], i)
}

/// What is carried under a name is the last acceptable of its values.
proof fn lemma_carried(sent: Fields, name: Seq<char>) -> (at: int)
    ensures
        name != "host"@ ==> (carried(sent).contains_key(name) <==> exists|i: int|
            passes_on(sent, name, i)),
        carried(sent).contains_key(name) ==> passes_on(sent, name, at) && carried(sent)[name]
            == seq![sent[name][at]],
{
    let at = lemma_last_acceptable(sent[name]);
    if name != "host"@ && carried(sent).contains_key(name) {
        assert(passes_on(sent, name, at));
    }
    at
}

/// The names that forwarding writes are different from each other and from the host.
proof fn lemma_names_differ()
    ensures
        "host"@ != "x-forwarded-for"@,
        "host"@ != "x-real-ip"@,
        "host"@ != "x-forwarded-proto"@,
        "x-forwarded-for"@ != "x-real-ip"@,
        "x-forwarded-for"@ != "x-forwarded-proto"@,
        "x-real-ip"@ != "x-forwarded-proto"@,
{
    reveal_strlit("host");
    reveal_strlit("x-forwarded-for");
    reveal_strlit("x-real-ip");
    reveal_strlit("x-forwarded-proto");
    assert("host"@.len() == 4);
    assert("x-forwarded-for"@.len() == 15);
    assert("x-real-ip"@.len() == 9);
    assert("x-forwarded-proto"@.len() == 17);
}

/// Under a name that forwarding does not write itself, the backend gets one value, the last
/// acceptable one of the sender's; it gets none exactly where there is none, or under the host's
/// name.
pub proof fn law_senders_headers_arrive(
    incoming: HeaderMap<HeaderValue>,
    client_ip: Option<&str>,
    outgoing: HeaderMap<HeaderValue>,
    name: Seq<char>,
)
    requires
        call_ensures(forward_headers, (&incoming, client_ip), Some(outgoing)),
        client_ip is Some ==> name != "x-forwarded-for"@ && name != "x-real-ip"@,
        name != "x-forwarded-proto"@,
    ensures
        header_fields(outgoing).contains_key(name) <==> name != "host"@ && exists|i: int|
            passes_on(header_fields(incoming), name, i),
        forall|i: int|
            name != "host"@ && #[trigger] passes_on(header_fields(incoming), name, i)
                ==> header_fields(outgoing)[name] == seq![header_fields(incoming)[name][i]],
{
    let at = lemma_carried(header_fields(incoming), name);
    lemma_names_differ();
    lemma_one_last(header_fields(incoming)[name], at);
}

/// There is one last acceptable value at most.
proof fn lemma_one_last(values: Seq<Seq<u8>>, at: int)
    ensures
        is_last_acceptable(values, at) ==> forall|i: int| #[trigger]
            is_last_acceptable(values, i) ==> i == at,
{
    assert forall|i: int|
        is_last_acceptable(values, at) && #[trigger] is_last_acceptable(values, i) implies i
        == at by {
        if i < at {
            assert(!is_header_value(values[at]));
        } else if at < i {
            assert(!is_header_value(values[i]));
        }
    }
}

/// The backend is told the protocol: what the sender says it is, else `http`.
pub proof fn law_protocol_arrives(
    incoming: HeaderMap<HeaderValue>,
    client_ip: Option<&str>,
    outgoing: HeaderMap<HeaderValue>,
)
    requires
        call_ensures(forward_headers, (&incoming, client_ip), Some(outgoing)),
    ensures
        header_fields(outgoing).contains_key("x-forwarded-proto"@),
        forall|i: int| #[trigger]
            passes_on(header_fields(incoming), "x-forwarded-proto"@, i) ==> header_fields(
                outgoing,
            )["x-forwarded-proto"@] == seq![header_fields(incoming)["x-forwarded-proto"@][i]],
        (forall|i: int| !#[trigger] passes_on(header_fields(incoming), "x-forwarded-proto"@, i))
            ==> header_fields(outgoing)["x-forwarded-proto"@] == seq![
            encode_utf8(seq!['h', 't', 't', 'p']),
        ],
{
    reveal_strlit("http");
    assert("http"@ =~= seq!['h', 't', 't', 'p']);
    let at = lemma_carried(header_fields(incoming), "x-forwarded-proto"@);
    lemma_names_differ();
    lemma_one_last(header_fields(incoming)["x-forwarded-proto"@], at);
}

/// The backend is told the real address of the client: what the sender says it is, else the
/// address from which the request came.
pub proof fn law_real_address_arrives(
    incoming: HeaderMap<HeaderValue>,
    ip: &str,
    outgoing: HeaderMap<HeaderValue>,
)
    requires
        call_ensures(forward_headers, (&incoming, Some(ip)), Some(outgoing)),
    ensures
        forall|i: int| #[trigger]
            passes_on(header_fields(incoming), "x-real-ip"@, i) ==> header_fields(
                outgoing,
            ).contains_key("x-real-ip"@) && header_fields(outgoing)["x-real-ip"@]
                == seq![header_fields(incoming)["x-real-ip"@][i]],
        (forall|i: int| !#[trigger] passes_on(header_fields(incoming), "x-real-ip"@, i)) ==> {
            &&& header_fields(outgoing).contains_key("x-real-ip"@) <==> is_header_value(
                encode_utf8(ip@),
            )
            &&& is_header_value(encode_utf8(ip@)) ==> header_fields(outgoing)["x-real-ip"@]
                == seq![encode_utf8(ip@)]
        },
{
    let at = lemma_carried(header_fields(incoming), "x-real-ip"@);
    lemma_names_differ();
    lemma_one_last(header_fields(incoming)["x-real-ip"@], at);
}

/// The address from which a request came is put behind those that it was forwarded for already,
/// with a comma and a space between, where these read as text; else it stands alone. Nothing
/// changes where the outcome cannot be a header value.
pub proof fn law_address_joins_the_chain(
    incoming: HeaderMap<HeaderValue>,
    ip: &str,
    outgoing: HeaderMap<HeaderValue>,
    chain: Seq<char>,
)
    requires
        call_ensures(forward_headers, (&incoming, Some(ip)), Some(outgoing)),
        (exists|i: int|
            #[trigger] passes_on(header_fields(incoming), "x-forwarded-for"@, i) && is_text_value(
                header_fields(incoming)["x-forwarded-for"@][i],
            ) && chain == value_text(header_fields(incoming)["x-forwarded-for"@][i]) + seq![
                ',',
                ' ',
            ] + ip@) || (chain == ip@ && forall|i: int|
            #[trigger] passes_on(header_fields(incoming), "x-forwarded-for"@, i)
                ==> !is_text_value(header_fields(incoming)["x-forwarded-for"@][i])),
    ensures
        is_header_value(encode_utf8(chain)) ==> header_fields(outgoing).contains_key(
            "x-forwarded-for"@,
        ) && header_fields(outgoing)["x-forwarded-for"@] == seq![encode_utf8(chain)],
        !is_header_value(encode_utf8(chain)) ==> {
            &&& header_fields(outgoing).contains_key("x-forwarded-for"@) <==> exists|i: int|
                passes_on(header_fields(incoming), "x-forwarded-for"@, i)
            &&& forall|i: int| #[trigger]
                passes_on(header_fields(incoming), "x-forwarded-for"@, i) ==> header_fields(
                    outgoing,
                )["x-forwarded-for"@] == seq![header_fields(incoming)["x-forwarded-for"@][i]]
        },
{
    let sent = header_fields(incoming);
    let name = "x-forwarded-for"@;
    let at = lemma_carried(sent, name);
    lemma_names_differ();
    lemma_one_last(sent[name], at);
    reveal_strlit(", ");
    assert(", "@ =~= seq![',', ' ']);
    let base = carried(sent);
    assert(chain == address_chain(text_under(base, name), ip@));
}

/// Headers are not refused for want of room while there are no more than a map surely takes.
pub proof fn law_headers_find_room(
    incoming: HeaderMap<HeaderValue>,
    client_ip: Option<&str>,
    outgoing: Option<HeaderMap<HeaderValue>>,
)
    requires
        call_ensures(forward_headers, (&incoming, client_ip), outgoing),
        header_fields(incoming).dom().len() <= 6551,
    ensures
        outgoing is Some,
{
}

/// A chain that is extended keeps what it held and ends with the new address, with a comma and a
/// space between them; without one the address stands alone.
pub proof fn law_extended_chain(existing: &str, ip: &str, longer: String, alone: String)
    requires
        call_ensures(extend_chain, (Some(existing), ip), longer),
        call_ensures(extend_chain, (None, ip), alone),
    ensures
        longer@ == existing@ + seq![',', ' '] + ip@,
        alone@ == ip@,
{
    reveal_strlit(", ");
    assert(", "@ =~= seq![',', ' ']);
}

/// A client is known by the first address of the chain that it came through, without white space
/// around it; without a chain, by the address of the connection; without that, by the
/// unspecified address.
pub proof fn law_client_is_known_by_its_first_address(
    forwarded_for: Option<&str>,
    peer: Option<&str>,
    ip: String,
)
    requires
        call_ensures(pick_client_ip, (forwarded_for, peer), ip),
    ensures
        forwarded_for matches Some(chain) ==> exists|first: Seq<char>| #[trigger]
            is_core(ip@, first) && first.is_prefix_of(chain@) && !first.contains(',') && (
            first.len() < chain@.len() ==> chain@[first.len() as int] == ','),
        forwarded_for is None ==> (peer matches Some(connection) ==> ip@ == connection@),
        forwarded_for is None && peer is None ==> ip@ == seq!['0', '.', '0', '.', '0', '.', '0'],
{
    if let Some(chain) = forwarded_for {
        law_before_first(chain@, ',');
        law_trimmed_is_the_core(before_first(chain@, ','));
    }
    reveal_strlit("0.0.0.0");
    assert("0.0.0.0"@ =~= seq!['0', '.', '0', '.', '0', '.', '0']);
}

/// The sender of a request is known by the first of the values that it was forwarded for, where
/// that reads as text; else as if it had not been forwarded.
pub proof fn law_request_names_its_sender(
    peer: Option<&str>,
    headers: HeaderMap<HeaderValue>,
    chain: &str,
    ip: String,
    by_chain: String,
    by_peer: String,
)
    requires
        call_ensures(client_ip, (peer, &headers), ip),
        call_ensures(pick_client_ip, (Some(chain), peer), by_chain),
        call_ensures(pick_client_ip, (None, peer), by_peer),
        header_fields(headers).contains_key("x-forwarded-for"@) && is_text_value(
            header_fields(headers)["x-forwarded-for"@][0],
        ) ==> {
            &&& chain@.len() == header_fields(headers)["x-forwarded-for"@][0].len()
            &&& forall|i: int|
                0 <= i < chain@.len() ==> #[trigger] chain@[i] == header_fields(
                    headers,
                )["x-forwarded-for"@][0][i] as char
        },
    ensures
        header_fields(headers).contains_key("x-forwarded-for"@) && is_text_value(
            header_fields(headers)["x-forwarded-for"@][0],
        ) ==> ip@ == by_chain@,
        !(header_fields(headers).contains_key("x-forwarded-for"@) && is_text_value(
            header_fields(headers)["x-forwarded-for"@][0],
        )) ==> ip@ == by_peer@,
{
    let fields = header_fields(headers);
    let name = "x-forwarded-for"@;
    if fields.contains_key(name) && is_text_value(fields[name][0]) {
        assert(chain@ =~= value_text(fields[name][0]));
    }
}

} // verus!
