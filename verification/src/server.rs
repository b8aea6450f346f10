//! Backend servers: what the balancer asks of them, and the requests and replies that pass
//! between a client and one of them.
use crate::forwarding::{forward_headers, forwarded};
use crate::headers::{
    append_header, empty_headers, header_entries, header_fields, is_header_name,
    is_header_value, is_lower_ascii, is_method, lemma_finitely_many_names,
    lemma_name_spells_itself, lists, parse_method, parse_name, takes_bytes, value_text, values_of,
    Fields, MAX_NAMES,
};
use crate::text::optional;
use reqwest::header::{HeaderMap, HeaderValue};
use std::sync::atomic::{AtomicBool, Ordering};
use std::sync::Arc;
use vstd::prelude::*;

verus! {

/// A backend that requests can be placed on.
pub trait Server {
    /// The characters of the server's address.
    spec fn address_text(&self) -> Seq<char>;

    /// The base address of the server, such as `http://localhost:8001`.
    fn address(&self) -> (address: &str)
        ensures
            address@ == self.address_text(),
    ;
}

/// A backend that is reached at a fixed address, with a flag that holds the outcome of the last
/// health check.
#[derive(Debug)]
pub struct SimpleServer {
    addr: String,
    alive: Arc<AtomicBool>,
}

/// A request as it goes to a backend.
pub struct OutgoingRequest {
    pub method: String,
    pub target: String,
    pub headers: HeaderMap<HeaderValue>,
}

/// What became of a request to a backend.
pub enum Upstream {
    Answered { status: u16, headers: HeaderMap<HeaderValue>, body: Vec<u8> },
    Failed,
}

/// A reply to a client.
pub struct Reply {
    pub status: u16,
    pub headers: HeaderMap<HeaderValue>,
    pub body: Vec<u8>,
}

/// Whether the answer to a health probe counts as a sign of life: any status that means
/// success. No answer does not.
pub open spec fn shows_life(probe: Option<u16>) -> bool {
    probe matches Some(status) && 200 <= status < 300
}

/// The method with which a request goes on: its own where it is one, else `GET`.
pub open spec fn onward_method(method: Seq<u8>) -> Seq<char> {
    if is_method(method) {
        value_text(method)
    } else {
        "GET"@
    }
}

/// The address that a request goes on to.
pub open spec fn onward_target(address: Seq<char>, path_and_query: Option<Seq<char>>) -> Seq<char> {
    match path_and_query {
        Some(path) => address + path,
        None => address + "/"@,
    }
}

/// Whether a reply can have the given status and headers.
pub open spec fn is_reply(status: u16, fields: Fields) -> bool {
    &&& 100 <= status < 1000
    &&& forall|name: Seq<char>| #[trigger] fields.contains_key(name) ==> is_header_name(name)
    &&& forall|name: Seq<char>, i: int|
        fields.contains_key(name) && 0 <= i < fields[name].len() ==> is_header_value(
            #[trigger] fields[name][i],
        )
}

impl Server for SimpleServer {
    closed spec fn address_text(&self) -> Seq<char> {
        self.addr@
    }

    fn address(&self) -> (address: &str) {
        self.addr.as_str()
    }
}

impl SimpleServer {
    /// The flag that holds the outcome of the last health check. As a value of the logic it is
    /// the flag's identity: what the flag holds changes under its holders' hands.
    pub closed spec fn flag(&self) -> Arc<AtomicBool> {
        self.alive
    }

    /// A server at the given address, with a flag of its own. The flag is set to `true`, as the
    /// server is taken to be alive until it is asked; no contract speaks of what a flag holds.
    pub fn new(addr: String) -> (server: SimpleServer)
        ensures
            server.address_text() == addr@,
    {
        SimpleServer { addr, alive: Arc::new(AtomicBool::new(true)) }
    }

    /// A handle on the server's flag, through which later health checks are seen.
    pub fn alive_flag(&self) -> (flag: Arc<AtomicBool>)
        ensures
            flag == self.flag(),
    {
        self.alive.clone()
    }

    /// Takes in the answer to a health probe: its status, or nothing where none came. What is
    /// returned is also stored in the server's flag; no contract speaks of what a flag holds.
    pub fn is_alive(&self, probe: Option<u16>) -> (alive: bool)
        ensures
            alive == shows_life(probe),
    {
        let alive = match probe {
            Some(status) => 200 <= status && status < 300,
            None => false,
        };
        self.alive.store(alive, Ordering::Relaxed);
        alive
    }

    /// The request to send to this server for one that came from a client, unless its headers
    /// are too many for a header map.
    pub fn serve(
        &self,
        method: &[u8],
        path_and_query: Option<&str>,
        headers: &HeaderMap<HeaderValue>,
        client_ip: Option<&str>,
    ) -> (request: Option<OutgoingRequest>)
        ensures
            request matches Some(r) ==> {
                &&& r.method@ == onward_method(method@)
                &&& r.target@ == onward_target(self.address_text(), optional(path_and_query))
                &&& header_fields(r.headers) == forwarded(
                    header_fields(*headers),
                    optional(client_ip),
                )
            },
            header_fields(*headers).dom().len() + 2 <= MAX_NAMES ==> request is Some,
    {
        let mut target = self.addr.clone();
        match path_and_query {
            Some(path) => target.append(path),
            None => target.append("/"),
        }
        let onward = match parse_method(method) {
            Some(m) => m,
            None => "GET".to_owned(),
        };
        match forward_headers(headers, client_ip) {
            Some(outgoing) => Some(OutgoingRequest { method: onward, target, headers: outgoing }),
            None => None,
        }
    }
}

/// The header block that a list spells out.
spec fn fields_from(entries: Seq<(String, Vec<u8>)>) -> Fields {
    Map::new(
        |name: Seq<char>| values_of(entries, name).len() > 0,
        |name: Seq<char>| values_of(entries, name),
    )
}

/// A list spells out the block whose values it lists.
proof fn lemma_spelled_out(entries: Seq<(String, Vec<u8>)>, fields: Fields)
    requires
        lists(entries, fields),
        forall|name: Seq<char>| #[trigger]
            fields.contains_key(name) ==> values_of(entries, name).len() > 0,
    ensures
        fields_from(entries) == fields,
{
    assert forall|name: Seq<char>| true implies #[trigger] fields_from(entries).contains_key(name)
        == fields.contains_key(name) && (fields.contains_key(name) ==> fields_from(entries)[name]
        == fields[name]) by {
        let _ = values_of(entries, name);
    }
    assert(fields_from(entries) =~= fields);
}

/// Another header in the list adds its value to those of its name.
proof fn lemma_fields_step(entries: Seq<(String, Vec<u8>)>, entry: (String, Vec<u8>))
    ensures
        fields_from(entries.push(entry)) == fields_from(entries).insert(
            entry.0@,
            if fields_from(entries).contains_key(entry.0@) {
                fields_from(entries)[entry.0@].push(entry.1@)
            } else {
                seq![entry.1@]
            },
        ),
{
    let grown = entries.push(entry);
    assert(grown.drop_last() == entries);
    let stepped = fields_from(entries).insert(
        entry.0@,
        if fields_from(entries).contains_key(entry.0@) {
            fields_from(entries)[entry.0@].push(entry.1@)
        } else {
            seq![entry.1@]
        },
    );
    assert forall|name: Seq<char>| true implies #[trigger] fields_from(grown).contains_key(name)
        == stepped.contains_key(name) && (stepped.contains_key(name) ==> fields_from(grown)[name]
        == stepped[name]) by {
        if name == entry.0@ && values_of(entries, name).len() == 0 {
            assert(values_of(entries, name) == Seq::<Seq<u8>>::empty());
        }
    }
    assert(fields_from(grown) =~= stepped);
}

/// The value of a header in the list is among those of its name.
proof fn lemma_value_listed(entries: Seq<(String, Vec<u8>)>, i: int)
    requires
        0 <= i < entries.len(),
    ensures
        values_of(entries, entries[i].0@).contains(entries[i].1@),
    decreases entries.len(),
{
    let name = entries[i].0@;
    let values = values_of(entries, name);
    if i == entries.len() - 1 {
        assert(values[values.len() - 1] == entries[i].1@);
    } else {
        let earlier = values_of(entries.drop_last(), name);
        assert(entries.drop_last()[i] == entries[i]);
        lemma_value_listed(entries.drop_last(), i);
        let k = earlier.index_of(entries[i].1@);
        assert(values[k] == entries[i].1@);
    }
}

/// Every value under a name is that of some header in the list.
proof fn lemma_value_comes_from(
    entries: Seq<(String, Vec<u8>)>,
    name: Seq<char>,
    k: int,
) -> (i: int)
    requires
        0 <= k < values_of(entries, name).len(),
    ensures
        0 <= i < entries.len(),
        entries[i].0@ == name,
        entries[i].1@ == values_of(entries, name)[k],
    decreases entries.len(),
{
    let earlier = values_of(entries.drop_last(), name);
    if k < earlier.len() {
        lemma_value_comes_from(entries.drop_last(), name, k)
    } else {
        entries.len() - 1
    }
}

/// Copies a block of headers, header by header, where a reply can have them and there is room.
fn copy_headers(from: &HeaderMap<HeaderValue>) -> (copy: Option<HeaderMap<HeaderValue>>)
    ensures
        copy matches Some(headers) ==> {
            &&& header_fields(headers) == header_fields(*from)
            &&& is_reply(200, header_fields(*from))
        },
        is_reply(200, header_fields(*from)) && header_fields(*from).dom().len() <= MAX_NAMES
            ==> copy is Some,
{
    let entries = header_entries(from);
    let ghost fields = header_fields(*from);
    let mut headers = empty_headers();
    let mut i: usize = 0;
    proof {
        lemma_finitely_many_names(entries@, fields);
        assert(entries@.take(0) == Seq::<(String, Vec<u8>)>::empty());
        assert(fields_from(entries@.take(0)) =~= Fields::empty());
    }
    while i < entries.len()
        invariant
            i <= entries.len(),
            lists(entries@, fields),
            fields == header_fields(*from),
            fields.dom().finite(),
            forall|k: int| 0 <= k < entries.len() ==> is_lower_ascii((#[trigger] entries[k]).0@),
            forall|k: int|
                0 <= k < i ==> is_header_name((#[trigger] entries[k]).0@) && is_header_value(
                    entries[k].1@,
                ),
            header_fields(headers).dom().subset_of(fields.dom()),
            header_fields(headers) == fields_from(entries@.take(i as int)),
        decreases entries.len() - i,
    {
        proof {
            let name = entries[i as int].0@;
            lemma_name_spells_itself(name);
            lemma_value_listed(entries@, i as int);
            assert(values_of(entries@, name).len() > 0);
            assert(fields.contains_key(name));
            let k = fields[name].index_of(entries[i as int].1@);
            assert(fields[name][k] == entries[i as int].1@);
            vstd::set_lib::lemma_len_subset(header_fields(headers).dom(), fields.dom());
            lemma_fields_step(entries@.take(i as int), entries@[i as int]);
            assert(entries@.take(i + 1) == entries@.take(i as int).push(entries@[i as int]));
        }
        let name = match parse_name(entries[i].0.as_str().as_bytes()) {
            Some(name) => name,
            None => {
                return None;
            },
        };
        if !takes_bytes(entries[i].1.as_slice()) {
            return None;
        }
        if !append_header(&mut headers, name.as_str(), entries[i].1.as_slice()) {
            return None;
        }
        i = i + 1;
    }
    proof {
        assert(entries@.take(i as int) == entries@);
        lemma_spelled_out(entries@, fields);
        assert forall|name: Seq<char>| #[trigger] fields.contains_key(name) implies is_header_name(
            name,
        ) by {
            let k = lemma_value_comes_from(entries@, name, 0);
            assert(is_header_name(entries[k].0@));
        }
        assert forall|name: Seq<char>, k: int|
            fields.contains_key(name) && 0 <= k < fields[name].len() implies is_header_value(
            #[trigger] fields[name][k],
        ) by {
            assert(values_of(entries@, name) == fields[name]);
            let e = lemma_value_comes_from(entries@, name, k);
            assert(is_header_value(entries[e].1@));
        }
    }
    Some(headers)
}

impl Reply {
    /// A reply without headers.
    pub fn plain(status: u16, body: Vec<u8>) -> (reply: Reply)
        ensures
            reply.status == status,
            header_fields(reply.headers) == Fields::empty(),
            reply.body == body,
    {
        Reply { status, headers: empty_headers(), body }
    }

    /// The reply to a client for what became of its request: the backend's answer as it is,
    /// or a bare "bad gateway" (502) where there was none. There is no reply where no reply can
    /// be like the answer, or its headers are too many for a header map.
    pub fn relay(upstream: Upstream) -> (reply: Option<Reply>)
        ensures
            upstream matches Upstream::Answered { status, headers, body } ==> {
                &&& reply matches Some(r) ==> {
                    &&& r.status == status
                    &&& header_fields(r.headers) == header_fields(headers)
                    &&& r.body == body
                    &&& is_reply(status, header_fields(headers))
                }
                &&& is_reply(status, header_fields(headers)) && header_fields(headers).dom().len()
                    <= MAX_NAMES ==> reply is Some
            },
            upstream is Failed ==> {
                &&& reply matches Some(r)
                &&& r.status == 502
                &&& header_fields(r.headers) == Fields::empty()
                &&& r.body@ == Seq::<u8>::empty()
            },
    {
        match upstream {
            Upstream::Answered { status, headers, body } => {
                if status < 100 || status >= 1000 {
                    return None;
                }
                match copy_headers(&headers) {
                    Some(copy) => Some(Reply { status, headers: copy, body }),
                    None => None,
                }
            },
            Upstream::Failed => Some(Reply::plain(502, Vec::new())),
        }
    }
}

/// A server keeps the address that it was made with.
pub proof fn law_server_keeps_its_address(addr: String, server: SimpleServer, address: &str)
    requires
        call_ensures(SimpleServer::new, (addr,), server),
        call_ensures(<SimpleServer as Server>::address, (&server,), address),
    ensures
        address@ == addr@,
        server.address_text() == addr@,
{
}

/// All handles on a server's flag are handles on one flag.
pub proof fn law_flag_is_shared(server: SimpleServer, one: Arc<AtomicBool>, other: Arc<AtomicBool>)
    requires
        call_ensures(SimpleServer::alive_flag, (&server,), one),
        call_ensures(SimpleServer::alive_flag, (&server,), other),
    ensures
        one == other,
{
}

/// A server is alive exactly when its probe was answered with a status of the two hundreds.
pub proof fn law_only_success_is_a_sign_of_life(
    server: SimpleServer,
    probe: Option<u16>,
    alive: bool,
)
    requires
        call_ensures(SimpleServer::is_alive, (&server, probe), alive),
    ensures
        alive <==> exists|status: u16| probe == Some(status) && #[trigger] (status / 100) == 2,
        probe is None ==> !alive,
        forall|status: u16| probe == Some(status) && #[trigger] (status / 100) != 2 ==> !alive,
{
    if let Some(status) = probe {
        assert(alive <==> status / 100 == 2);
    }
}

/// A request goes on to the whole address of the server followed by the whole path and query,
/// or by a slash where there is none.
pub proof fn law_target_is_address_and_path(
    server: SimpleServer,
    method: &[u8],
    path_and_query: Option<&str>,
    headers: HeaderMap<HeaderValue>,
    client_ip: Option<&str>,
    request: OutgoingRequest,
)
    requires
        call_ensures(
            SimpleServer::serve,
            (&server, method, path_and_query, &headers, client_ip),
            Some(request),
        ),
    ensures
        server.address_text().is_prefix_of(request.target@),
        path_and_query matches Some(path) ==> {
            &&& request.target@.len() == server.address_text().len() + path@.len()
            &&& forall|i: int|
                0 <= i < path@.len() ==> request.target@[server.address_text().len() + i]
                    == #[trigger] path@[i]
        },
        path_and_query is None ==> {
            &&& request.target@.len() == server.address_text().len() + 1
            &&& request.target@.last() == '/'
        },
{
    reveal_strlit("/");
    let address = server.address_text();
    assert(address =~= request.target@.subrange(0, address.len() as int));
}

/// A request goes on with its own method, byte for byte, where that is one, and with `GET` where
/// it is not.
pub proof fn law_method_is_kept(
    server: SimpleServer,
    method: &[u8],
    path_and_query: Option<&str>,
    headers: HeaderMap<HeaderValue>,
    client_ip: Option<&str>,
    request: OutgoingRequest,
)
    requires
        call_ensures(
            SimpleServer::serve,
            (&server, method, path_and_query, &headers, client_ip),
            Some(request),
        ),
    ensures
        is_method(method@) ==> request.method@.len() == method@.len() && forall|i: int|
            0 <= i < method@.len() ==> request.method@[i] == #[trigger] method@[i] as char,
        !is_method(method@) ==> request.method@ == seq!['G', 'E', 'T'],
{
    reveal_strlit("GET");
    assert("GET"@ =~= seq!['G', 'E', 'T']);
}

/// A request carries on the headers that forwarding makes of its own, and is not refused while
/// there are no more than a map surely takes.
pub proof fn law_request_carries_forwarded_headers(
    server: SimpleServer,
    method: &[u8],
    path_and_query: Option<&str>,
    headers: HeaderMap<HeaderValue>,
    client_ip: Option<&str>,
    outcome: Option<OutgoingRequest>,
    outgoing: HeaderMap<HeaderValue>,
)
    requires
        call_ensures(
            SimpleServer::serve,
            (&server, method, path_and_query, &headers, client_ip),
            outcome,
        ),
        call_ensures(forward_headers, (&headers, client_ip), Some(outgoing)),
    ensures
        outcome matches Some(request) ==> header_fields(request.headers) == header_fields(outgoing),
        header_fields(headers).dom().len() <= 6551 ==> outcome is Some,
{
}

/// A plain reply has the status and body that it was made with, and no headers.
pub proof fn law_plain_reply(status: u16, body: Vec<u8>, reply: Reply, name: Seq<char>)
    requires
        call_ensures(Reply::plain, (status, body), reply),
    ensures
        reply.status == status,
        reply.body@ == body@,
        !header_fields(reply.headers).contains_key(name),
{
}

/// An answer is relayed as it is, with its status, its body, and under every name all of its
/// values in order. It is not where a reply cannot have its status or one of its headers.
pub proof fn law_answer_is_relayed_as_it_is(
    status: u16,
    headers: HeaderMap<HeaderValue>,
    body: Vec<u8>,
    outcome: Option<Reply>,
    name: Seq<char>,
    i: int,
)
    requires
        call_ensures(
            Reply::relay,
            (Upstream::Answered { status, headers, body },),
            outcome,
        ),
    ensures
        outcome matches Some(reply) ==> {
            &&& reply.status == status
            &&& reply.body@ == body@
            &&& header_fields(reply.headers).contains_key(name) <==> header_fields(
                headers,
            ).contains_key(name)
            &&& header_fields(headers).contains_key(name) ==> header_fields(reply.headers)[name]
                == header_fields(headers)[name]
        },
        status < 100 || status > 999 ==> outcome is None,
        header_fields(headers).contains_key(name) && !is_header_name(name) ==> outcome is None,
        header_fields(headers).contains_key(name) && 0 <= i < header_fields(headers)[name].len()
            && !is_header_value(header_fields(headers)[name][i]) ==> outcome is None,
        100 <= status <= 999 && header_fields(headers).dom().len() <= 6553 && (forall|
            n: Seq<char>,
        | #[trigger]
            header_fields(headers).contains_key(n) ==> is_header_name(n)) && (forall|
            n: Seq<char>,
            k: int,
        |
            header_fields(headers).contains_key(n) && 0 <= k < header_fields(headers)[n].len()
                ==> is_header_value(#[trigger] header_fields(headers)[n][k])) ==> outcome is Some,
{
}

/// Where no answer came, the reply is that of a bad gateway, without headers or body.
pub proof fn law_missing_answer_is_a_bad_gateway(outcome: Option<Reply>, name: Seq<char>)
    requires
        call_ensures(Reply::relay, (Upstream::Failed,), outcome),
    ensures
        outcome matches Some(reply) && reply.status == 502 && reply.body@.len() == 0
            && !header_fields(reply.headers).contains_key(name),
{
}

} // verus!
