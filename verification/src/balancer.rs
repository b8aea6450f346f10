//! The load balancer: which backend a client is placed on.
//!
//! A selection walks the ring from the client's place, asking each node's server whether it
//! is alive, until one is. The balancer says what to do next; the program around it does it and
//! reports back.
use crate::forwarding::{client_ip, known_as, text_under};
use crate::hashing::{hash32, hash32_of};
use crate::headers::{header_fields, Fields};
use crate::ring::{
    is_ring, is_start, law_every_server_is_on_the_ring, law_every_server_owns_replicas,
    law_nodes_name_servers, law_point_key_spells_the_replica, law_start, lemma_first_splits,
    lemma_node_is_point, lemma_point_on_ring, lemma_ring_members, point_hashes, point_key,
    ring_from_hashes, ring_order, server_point, spells_replica, start_index, start_of, RingNode,
    REPLICAS,
};
use crate::server::{Reply, Server};
use crate::text::{decimal, optional};
use reqwest::header::{HeaderMap, HeaderValue};
use std::sync::Arc;
use vstd::prelude::*;
use vstd::utf8::encode_utf8;

verus! {

/// A balancer: the port that it listens on, and its backends on their ring.
pub struct LoadBalancer<S: Server> {
    /// The port that the balancer listens on.
    pub port: String,
    /// The backends on their ring.
    pub placement: Placement<S>,
}

/// Backends and the ring on which they are placed.
pub struct Placement<S: Server> {
    servers: Vec<S>,
    ring: Vec<RingNode>,
}

/// A step of the health checks, which go on without end.
#[derive(Clone, Copy, Debug, PartialEq, Eq, Structural)]
pub enum HealthStep {
    /// Wait for the next round.
    Wait,
    /// Ask this server whether it is alive.
    Probe { server: usize },
}

/// How far the search for a client's server has come.
#[derive(Clone, Copy, Debug, PartialEq, Eq, Structural)]
pub enum Selection {
    /// `tried` nodes from the one at `start` on have been asked in vain.
    Probing { start: usize, tried: usize },
    /// A server answered.
    Found { server: usize },
    /// No node's server answered.
    NoneAlive,
}

/// What to do next for a request.
pub enum ProxyAction {
    /// Ask this server whether it is alive.
    Probe { server: usize },
    /// Send the request to this server.
    Forward { server: usize },
    /// Answer the client.
    Respond(Reply),
}

/// The server that owns the node `tried` steps on from `start`.
pub open spec fn node_owner(ring: Seq<RingNode>, start: int, tried: int) -> usize {
    ring[(start + tried) % ring.len() as int].idx
}

/// The selection with which the search for a key's server begins.
pub open spec fn begun(ring: Seq<RingNode>, key: u32) -> Selection {
    if ring.len() == 0 {
        Selection::NoneAlive
    } else {
        Selection::Probing { start: start_of(ring, key) as usize, tried: 0 }
    }
}

/// The selection after the server that it waits for has answered.
pub open spec fn advanced(ring: Seq<RingNode>, selection: Selection, alive: bool) -> Selection {
    match selection {
        Selection::Probing { start, tried } => if alive {
            Selection::Found { server: node_owner(ring, start as int, tried as int) }
        } else if tried + 1 == ring.len() {
            Selection::NoneAlive
        } else {
            Selection::Probing { start, tried: (tried + 1) as usize }
        },
        _ => selection,
    }
}

/// The selection after a row of answers.
pub open spec fn played(ring: Seq<RingNode>, selection: Selection, answers: Seq<bool>) -> Selection
    decreases answers.len(),
{
    if answers.len() == 0 {
        selection
    } else {
        played(ring, advanced(ring, selection, answers[0]), answers.drop_first())
    }
}

/// The addresses of a list of servers.
pub open spec fn addresses_of<S: Server>(servers: Seq<S>) -> Seq<Seq<char>> {
    servers.map_values(|s: S| s.address_text())
}

/// The step that follows another in the health checks of `count` servers: after a wait the first
/// server is asked, then each in its turn, and after the last comes the next wait.
pub open spec fn following_step(count: nat, last: HealthStep) -> HealthStep {
    match last {
        HealthStep::Wait => if count == 0 {
            HealthStep::Wait
        } else {
            HealthStep::Probe { server: 0 }
        },
        HealthStep::Probe { server } => if server + 1 < count {
            HealthStep::Probe { server: (server + 1) as usize }
        } else {
            HealthStep::Wait
        },
    }
}

/// The step that comes `k` steps after a wait.
pub open spec fn step_after_wait(count: nat, k: nat) -> HealthStep
    decreases k,
{
    if k == 0 {
        HealthStep::Wait
    } else {
        following_step(count, step_after_wait(count, (k - 1) as nat))
    }
}

impl<S: Server> Placement<S> {
    /// The backends, in the order in which they were given.
    pub closed spec fn backends(&self) -> Seq<S> {
        self.servers@
    }

    /// The nodes of the ring, in order.
    pub closed spec fn nodes(&self) -> Seq<RingNode> {
        self.ring@
    }
}

impl<S: Server> LoadBalancer<S> {
    /// The backends, in the order in which they were given.
    pub open spec fn backends(&self) -> Seq<S> {
        self.placement.backends()
    }

    /// The nodes of the ring, in order.
    pub open spec fn nodes(&self) -> Seq<RingNode> {
        self.placement.nodes()
    }

    /// Whether the ring is that of the backends.
    pub open spec fn well_formed(&self) -> bool {
        &&& is_ring(self.nodes(), point_hashes(addresses_of(self.backends())))
        &&& self.backends().len() <= usize::MAX
        &&& self.nodes().len() <= usize::MAX
    }

    /// Whether a selection is one of this balancer's.
    pub open spec fn admits(&self, selection: Selection) -> bool {
        match selection {
            Selection::Probing { start, tried } => start < self.nodes().len() && tried
                < self.nodes().len(),
            Selection::Found { server } => server < self.backends().len(),
            Selection::NoneAlive => true,
        }
    }

    /// A balancer over the given backends.
    pub fn new(port: String, servers: Vec<S>) -> (balancer: Arc<LoadBalancer<S>>)
        ensures
            balancer.port@ == port@,
            balancer.backends() == servers@,
            balancer.well_formed(),
    {
        let ring = Self::build_ring(&servers);
        assert(servers@.len() == servers.len() && ring@.len() == ring.len());
        Arc::new(LoadBalancer { port, placement: Placement { servers, ring } })
    }

    /// Places every replica of every server on the ring.
    fn build_ring(servers: &Vec<S>) -> (ring: Vec<RingNode>)
        ensures
            is_ring(ring@, point_hashes(addresses_of(servers@))),
    {
        let ghost addresses = addresses_of(servers@);
        let ghost all = point_hashes(addresses);
        let mut hashes: Vec<u32> = Vec::new();
        let mut idx: usize = 0;
        while idx < servers.len()
            invariant
                idx <= servers.len(),
                addresses == addresses_of(servers@),
                all == point_hashes(addresses),
                hashes@ == all.take(idx * 100),
            decreases servers.len() - idx,
        {
            let mut replica: usize = 0;
            while replica < REPLICAS
                invariant
                    idx < servers.len(),
                    replica <= REPLICAS,
                    addresses == addresses_of(servers@),
                    all == point_hashes(addresses),
                    hashes@ == all.take(idx * 100 + replica),
                decreases REPLICAS - replica,
            {
                let mut key = servers[idx].address().to_owned();
                key.append("#");
                key.append(decimal(replica).as_str());
                let hash: u32 = hash32(key.as_str());
                hashes.push(hash);
                proof {
                    reveal_strlit("#");
                    let i = idx * 100 + replica;
                    assert(i / 100 == idx && i % 100 == replica && 0 <= i < addresses.len() * 100)
                        by (nonlinear_arith)
                        requires
                            i == idx * 100 + replica,
                            0 <= replica < 100,
                            0 <= idx < addresses.len(),
                    ;
                    assert("#"@ == seq!['#']);
                    assert(key@ == point_key(addresses[idx as int], replica as nat));
                    assert(all[i] == hash);
                    assert(all.take(i + 1) == all.take(i).push(all[i]));
                }
                replica = replica + 1;
            }
            idx = idx + 1;
        }
        assert(all.take(idx * 100) == all);
        ring_from_hashes(&hashes)
    }

    /// The backends, in the order in which they were given.
    pub fn servers(&self) -> (servers: &Vec<S>)
        ensures
            servers@ == self.backends(),
    {
        &self.placement.servers
    }

    /// Begins the search for the server of a client with the given place on the circle.
    pub fn select_for_key(&self, key: u32) -> (selection: Selection)
        requires
            self.well_formed(),
        ensures
            selection == begun(self.nodes(), key),
            self.admits(selection),
    {
        if self.placement.ring.len() == 0 {
            return Selection::NoneAlive;
        }
        Selection::Probing { start: start_index(&self.placement.ring, key), tried: 0 }
    }

    /// Begins the search for the server of the client that sent a request.
    pub fn get_server_for_client(
        &self,
        client_addr: Option<&str>,
        headers: &HeaderMap<HeaderValue>,
    ) -> (selection: Selection)
        requires
            self.well_formed(),
        ensures
            selection == begun(
                self.nodes(),
                hash32_of(
                    known_as(
                        text_under(header_fields(*headers), "x-forwarded-for"@),
                        optional(client_addr),
                    ),
                ),
            ),
            self.admits(selection),
    {
        let ip = client_ip(client_addr, headers);
        self.select_for_key(hash32(ip.as_str()))
    }

    /// Takes in the answer of the server that a selection waits for.
    pub fn on_probe(&self, selection: Selection, alive: bool) -> (next: Selection)
        requires
            self.well_formed(),
            self.admits(selection),
        ensures
            next == advanced(self.nodes(), selection, alive),
            self.admits(next),
    {
        match selection {
            Selection::Probing { start, tried } => {
                if alive {
                    Selection::Found { server: self.owner(start, tried) }
                } else if tried + 1 == self.placement.ring.len() {
                    Selection::NoneAlive
                } else {
                    Selection::Probing { start, tried: tried + 1 }
                }
            },
            _ => selection,
        }
    }

    /// The server that owns the node `tried` steps on from `start`.
    fn owner(&self, start: usize, tried: usize) -> (server: usize)
        requires
            self.well_formed(),
            start < self.nodes().len(),
            tried < self.nodes().len(),
        ensures
            server == node_owner(self.nodes(), start as int, tried as int),
            server < self.backends().len(),
    {
        let len: usize = self.placement.ring.len();
        let at: usize = if tried < len - start {
            start + tried
        } else {
            tried - (len - start)
        };
        proof {
            assert(at == (start + tried) % (len as int)) by (nonlinear_arith)
                requires
                    0 <= start < len,
                    0 <= tried < len,
                    at == (if tried < len - start {
                        start + tried
                    } else {
                        tried - (len - start)
                    }),
            ;
            law_nodes_name_servers(addresses_of(self.backends()), self.nodes(), at as int);
        }
        self.placement.ring[at].idx
    }

    /// What to do next for a request: ask a server, send the request on, or tell the client
    /// that the service is unavailable (503).
    pub fn serve_proxy(&self, selection: Selection) -> (action: ProxyAction)
        requires
            self.well_formed(),
            self.admits(selection),
        ensures
            match selection {
                Selection::Probing { start, tried } => action == (ProxyAction::Probe {
                    server: node_owner(self.nodes(), start as int, tried as int),
                }),
                Selection::Found { server } => action == (ProxyAction::Forward { server }),
                Selection::NoneAlive => {
                    &&& action matches ProxyAction::Respond(reply)
                    &&& reply.status == 503
                    &&& header_fields(reply.headers) == Fields::empty()
                    &&& reply.body@ == encode_utf8("no healthy backends available"@)
                },
            },
            action matches ProxyAction::Probe { server } ==> server < self.backends().len(),
            action matches ProxyAction::Forward { server } ==> server < self.backends().len(),
    {
        match selection {
            Selection::Probing { start, tried } => ProxyAction::Probe {
                server: self.owner(start, tried),
            },
            Selection::Found { server } => ProxyAction::Forward { server },
            Selection::NoneAlive => ProxyAction::Respond(
                Reply::plain(503, "no healthy backends available".as_bytes_vec()),
            ),
        }
    }

    /// The step of the health checks that follows another: after a wait the first server is
    /// asked, then each in its turn, and after the last comes the next wait. Without servers
    /// every step is a wait.
    pub fn next_health_step(&self, last: HealthStep) -> (next: HealthStep)
        ensures
            next == following_step(self.backends().len(), last),
            next matches HealthStep::Probe { server } ==> server < self.backends().len(),
    {
        let count: usize = self.placement.servers.len();
        match last {
            HealthStep::Wait => if count == 0 {
                HealthStep::Wait
            } else {
                HealthStep::Probe { server: 0 }
            },
            HealthStep::Probe { server } => if server < count && server + 1 < count {
                HealthStep::Probe { server: server + 1 }
            } else {
                HealthStep::Wait
            },
        }
    }
}

/// The position of the first `true`, or the length of the row.
pub open spec fn first_true(answers: Seq<bool>) -> int
    decreases answers.len(),
{
    if answers.len() == 0 || answers[0] {
        0
    } else {
        1 + first_true(answers.drop_first())
    }
}

/// What `first_true` gives is a `true` before which there is none, or the length of the row.
pub(crate) proof fn lemma_first_true(answers: Seq<bool>)
    ensures
        0 <= first_true(answers) <= answers.len(),
        first_true(answers) < answers.len() ==> answers[first_true(answers)],
        forall|i: int| 0 <= i < first_true(answers) ==> !#[trigger] answers[i],
    decreases answers.len(),
{
    if answers.len() > 0 && !answers[0] {
        let rest = answers.drop_first();
        lemma_first_true(rest);
        assert forall|i: int| 0 <= i < first_true(answers) implies !#[trigger] answers[i] by {
            if i > 0 {
                assert(answers[i] == rest[i - 1]);
            }
        }
    }
}

/// A selection that has ended stays as it is.
proof fn lemma_ended(ring: Seq<RingNode>, selection: Selection, answers: Seq<bool>)
    requires
        !(selection is Probing),
    ensures
        played(ring, selection, answers) == selection,
    decreases answers.len(),
{
    if answers.len() > 0 {
        lemma_ended(ring, selection, answers.drop_first());
    }
}

/// How a selection in progress ends.
pub(crate) proof fn lemma_played(
    ring: Seq<RingNode>,
    start: usize,
    tried: usize,
    answers: Seq<bool>,
)
    requires
        tried < ring.len() <= usize::MAX,
        tried + answers.len() == ring.len(),
    ensures
        played(ring, Selection::Probing { start, tried }, answers) == if first_true(answers)
            < answers.len() {
            Selection::Found { server: node_owner(ring, start as int, tried + first_true(answers)) }
        } else {
            Selection::NoneAlive
        },
    decreases answers.len(),
{
    let next = advanced(ring, Selection::Probing { start, tried }, answers[0]);
    let rest = answers.drop_first();
    if answers[0] || tried + 1 == ring.len() {
        lemma_ended(ring, next, rest);
        if !answers[0] {
            assert(rest.len() == 0);
        }
    } else {
        lemma_played(ring, start, (tried + 1) as usize, rest);
        lemma_first_true(rest);
    }
}

/// The first position that holds `true` is what `first_true` gives.
proof fn lemma_first_true_is(answers: Seq<bool>, k: int)
    requires
        0 <= k < answers.len(),
        answers[k],
        forall|i: int| 0 <= i < k ==> !#[trigger] answers[i],
    ensures
        first_true(answers) == k,
{
    lemma_first_true(answers);
    let f = first_true(answers);
    if f < k {
        assert(!answers[f]);
    } else if k < f {
        assert(!answers[k]);
    }
}

/// The search ends at the first node, from the client's place on round the ring, whose server
/// answers that it is alive.
pub proof fn law_first_live_node_serves(
    ring: Seq<RingNode>,
    key: u32,
    answers: Seq<bool>,
    k: int,
)
    requires
        ring.len() <= usize::MAX,
        answers.len() == ring.len(),
        0 <= k < answers.len(),
        answers[k],
        forall|i: int| 0 <= i < k ==> !#[trigger] answers[i],
    ensures
        played(ring, begun(ring, key), answers) == (Selection::Found {
            server: node_owner(ring, start_of(ring, key), k),
        }),
{
    lemma_start_in_ring(ring, key);
    lemma_first_true_is(answers, k);
    lemma_played(ring, start_of(ring, key) as usize, 0, answers);
}

/// The search ends: when every node has been asked, a server has been found or none is alive.
pub proof fn law_search_ends(ring: Seq<RingNode>, key: u32, answers: Seq<bool>)
    requires
        ring.len() <= usize::MAX,
        answers.len() == ring.len(),
    ensures
        !(played(ring, begun(ring, key), answers) is Probing),
{
    if ring.len() > 0 {
        lemma_played(ring, start_of(ring, key) as usize, 0, answers);
    }
}

/// The search ends without a server exactly when no node's server answers that it is alive.
pub proof fn law_no_server_exactly_when_none_answers(
    ring: Seq<RingNode>,
    key: u32,
    answers: Seq<bool>,
)
    requires
        ring.len() <= usize::MAX,
        answers.len() == ring.len(),
    ensures
        played(ring, begun(ring, key), answers) == Selection::NoneAlive <==> forall|i: int|
            0 <= i < answers.len() ==> !#[trigger] answers[i],
{
    lemma_first_true(answers);
    if ring.len() > 0 {
        lemma_played(ring, start_of(ring, key) as usize, 0, answers);
    }
}

/// A round of health checks asks every server once, in order, and then waits.
pub proof fn law_round_asks_every_server(count: nat, k: nat)
    requires
        k <= count + 1,
        count <= usize::MAX,
    ensures
        step_after_wait(count, k) == if 0 < k <= count {
            HealthStep::Probe { server: (k - 1) as usize }
        } else {
            HealthStep::Wait
        },
    decreases k,
{
    if k > 0 {
        law_round_asks_every_server(count, (k - 1) as nat);
    }
}

/// The search fails only after every server has been asked and has not answered that it is
/// alive.
pub proof fn law_failure_means_all_were_asked(
    addresses: Seq<Seq<char>>,
    ring: Seq<RingNode>,
    key: u32,
    answers: Seq<bool>,
    server: int,
)
    requires
        is_ring(ring, point_hashes(addresses)),
        ring.len() <= usize::MAX,
        answers.len() == ring.len(),
        played(ring, begun(ring, key), answers) == Selection::NoneAlive,
        0 <= server < addresses.len() <= usize::MAX,
    ensures
        exists|k: int|
            0 <= k < answers.len() && !#[trigger] answers[k] && node_owner(
                ring,
                start_of(ring, key),
                k,
            ) == server,
{
    law_every_server_is_on_the_ring(addresses, ring, server);
    let q = choose|q: int| 0 <= q < ring.len() && (#[trigger] ring[q]).idx == server;
    lemma_start_in_ring(ring, key);
    let start = start_of(ring, key);
    let n = ring.len() as int;
    let k = if q >= start {
        q - start
    } else {
        q - start + n
    };
    assert((start + k) % n == q) by (nonlinear_arith)
        requires
            0 <= start < n,
            0 <= q < n,
            k == (if q >= start {
                q - start
            } else {
                q - start + n
            }),
    ;
    lemma_played(ring, start as usize, 0, answers);
    lemma_first_true(answers);
    assert(!answers[k]);
}

/// A ring with nodes has one at which the search starts.
pub(crate) proof fn lemma_start_in_ring(ring: Seq<RingNode>, key: u32)
    requires
        ring.len() > 0,
    ensures
        0 <= start_of(ring, key) < ring.len(),
{
    lemma_first_splits(ring, key);
}

/// A new balancer keeps its port and its backends.
pub proof fn law_new_keeps_port_and_servers<S: Server>(
    port: String,
    servers: Vec<S>,
    balancer: Arc<LoadBalancer<S>>,
    listed: &Vec<S>,
)
    requires
        call_ensures(LoadBalancer::<S>::new, (port, servers), balancer),
        call_ensures(LoadBalancer::<S>::servers, (&*balancer,), listed),
    ensures
        balancer.port@ == port@,
        listed@ == servers@,
        balancer.backends() == servers@,
        balancer.well_formed(),
{
}

/// Each of the hundred replicas of a server has its node on the ring: one of that server, at the
/// hash of the server's whole address, `#` and the number of the replica in base ten.
pub proof fn law_every_replica_has_its_node<S: Server>(
    port: String,
    servers: Vec<S>,
    balancer: Arc<LoadBalancer<S>>,
    server: int,
    replica: nat,
    key: &str,
    hash: u32,
)
    requires
        call_ensures(LoadBalancer::<S>::new, (port, servers), balancer),
        0 <= server < servers.len(),
        replica < 100,
        spells_replica(key@, servers[server].address_text(), replica),
        call_ensures(hash32, (key,), hash),
    ensures
        balancer.nodes().contains(RingNode { hash, idx: server as usize }),
{
    let addresses = addresses_of(servers@);
    law_point_key_spells_the_replica(addresses[server], replica, key@);
    lemma_point_on_ring(addresses, balancer.nodes(), server, replica as int);
    assert(server_point(addresses, server, replica as int) == (RingNode {
        hash,
        idx: server as usize,
    }));
}

/// The ring has no nodes but those of the replicas, a hundred for each server.
pub proof fn law_every_node_is_a_replica<S: Server>(
    port: String,
    servers: Vec<S>,
    balancer: Arc<LoadBalancer<S>>,
    node: RingNode,
    server: int,
)
    requires
        call_ensures(LoadBalancer::<S>::new, (port, servers), balancer),
    ensures
        balancer.nodes().len() == servers.len() * 100,
        0 <= server < servers.len() ==> balancer.nodes().filter(
            |n: RingNode| n.idx == server,
        ).len() == 100,
        balancer.nodes().contains(node) ==> node.idx < servers.len() && exists|
            key: Seq<char>,
            replica: nat,
        |
            replica < 100 && #[trigger] spells_replica(
                key,
                servers[node.idx as int].address_text(),
                replica,
            ) && node.hash == hash32_of(key),
{
    let addresses = addresses_of(servers@);
    let ring = balancer.nodes();
    lemma_ring_members(ring, point_hashes(addresses));
    assert(addresses.len() == servers.len());
    if 0 <= server < servers.len() {
        law_every_server_owns_replicas(addresses, ring, server);
    }
    if ring.contains(node) {
        let (s, r) = lemma_node_is_point(addresses, ring, node);
        let key = point_key(addresses[s], r as nat);
        law_point_key_spells_the_replica(addresses[s], r as nat, key);
        assert(spells_replica(key, servers[node.idx as int].address_text(), r as nat));
    }
}

/// The ring is in ascending order; among nodes with one hash, that of the earlier server comes
/// first.
pub proof fn law_ring_ascends<S: Server>(balancer: LoadBalancer<S>, i: int, j: int)
    requires
        balancer.well_formed(),
        0 <= i < j < balancer.nodes().len(),
    ensures
        balancer.nodes()[i].hash <= balancer.nodes()[j].hash,
        balancer.nodes()[i].hash == balancer.nodes()[j].hash ==> balancer.nodes()[i].idx
            <= balancer.nodes()[j].idx,
{
    assert(ring_order()(balancer.nodes()[i], balancer.nodes()[j]));
}

/// The search for a client's server begins at the next node on the circle, with no node asked
/// yet; it is over at once where there are no nodes.
pub proof fn law_search_begins_at_the_next_node<S: Server>(
    balancer: LoadBalancer<S>,
    key: u32,
    selection: Selection,
)
    requires
        balancer.well_formed(),
        call_ensures(LoadBalancer::<S>::select_for_key, (&balancer, key), selection),
    ensures
        balancer.nodes().len() == 0 ==> selection == Selection::NoneAlive,
        balancer.nodes().len() > 0 ==> {
            &&& selection matches Selection::Probing { start, tried }
            &&& tried == 0
            &&& is_start(balancer.nodes(), key, start as int)
        },
{
    if balancer.nodes().len() > 0 {
        law_start(balancer.nodes(), key);
    }
}

/// A client is placed by the hash of the address by which it is known.
pub proof fn law_client_is_placed_by_its_address<S: Server>(
    balancer: LoadBalancer<S>,
    peer: Option<&str>,
    headers: HeaderMap<HeaderValue>,
    ip: String,
    key: &str,
    hash: u32,
    selection: Selection,
    by_key: Selection,
)
    requires
        balancer.well_formed(),
        call_ensures(client_ip, (peer, &headers), ip),
        key@ == ip@,
        call_ensures(hash32, (key,), hash),
        call_ensures(LoadBalancer::<S>::select_for_key, (&balancer, hash), by_key),
        call_ensures(
            LoadBalancer::<S>::get_server_for_client,
            (&balancer, peer, &headers),
            selection,
        ),
    ensures
        selection == by_key,
{
}

/// A search under way asks the server of the node that is `tried` nodes on from the start, going
/// round from the last node to the first.
pub proof fn law_search_asks_the_nodes_in_turn<S: Server>(
    balancer: LoadBalancer<S>,
    start: usize,
    tried: usize,
    action: ProxyAction,
)
    requires
        balancer.well_formed(),
        start < balancer.nodes().len(),
        tried < balancer.nodes().len(),
        call_ensures(
            LoadBalancer::<S>::serve_proxy,
            (&balancer, Selection::Probing { start, tried }),
            action,
        ),
    ensures
        action == (ProxyAction::Probe {
            server: if start + tried < balancer.nodes().len() {
                balancer.nodes()[start + tried].idx
            } else {
                balancer.nodes()[start + tried - balancer.nodes().len()].idx
            },
        }),
{
    let n = balancer.nodes().len() as int;
    let at = if start + tried < n {
        start + tried
    } else {
        start + tried - n
    };
    assert(at == (start + tried) % n) by (nonlinear_arith)
        requires
            0 <= start < n,
            0 <= tried < n,
            at == (if start + tried < n {
                start + tried
            } else {
                start + tried - n
            }),
    ;
}

/// The server that was asked is the one that serves where it answers. Where it does not, the
/// search goes on to the next node, and ends when no node is left.
pub proof fn law_answers_move_the_search<S: Server>(
    balancer: LoadBalancer<S>,
    start: usize,
    tried: usize,
    asked: usize,
    answered: Selection,
    unanswered: Selection,
)
    requires
        balancer.well_formed(),
        start < balancer.nodes().len(),
        tried < balancer.nodes().len(),
        call_ensures(
            LoadBalancer::<S>::serve_proxy,
            (&balancer, Selection::Probing { start, tried }),
            ProxyAction::Probe { server: asked },
        ),
        call_ensures(
            LoadBalancer::<S>::on_probe,
            (&balancer, Selection::Probing { start, tried }, true),
            answered,
        ),
        call_ensures(
            LoadBalancer::<S>::on_probe,
            (&balancer, Selection::Probing { start, tried }, false),
            unanswered,
        ),
    ensures
        answered == (Selection::Found { server: asked }),
        tried < balancer.nodes().len() - 1 ==> unanswered == (Selection::Probing {
            start,
            tried: (tried + 1) as usize,
        }),
        tried == balancer.nodes().len() - 1 ==> unanswered == Selection::NoneAlive,
{
}

/// A search that has ended takes no more answers.
pub proof fn law_ended_search_stays<S: Server>(
    balancer: LoadBalancer<S>,
    selection: Selection,
    alive: bool,
    next: Selection,
)
    requires
        !(selection is Probing),
        call_ensures(LoadBalancer::<S>::on_probe, (&balancer, selection, alive), next),
    ensures
        next == selection,
{
}

/// Once the search has ended, the request goes to the server that was found; where none was, the
/// client is told so, with the status of an unavailable service and no headers.
pub proof fn law_ended_search_is_acted_on<S: Server>(
    balancer: LoadBalancer<S>,
    server: usize,
    when_found: ProxyAction,
    when_none: ProxyAction,
)
    requires
        call_ensures(
            LoadBalancer::<S>::serve_proxy,
            (&balancer, Selection::Found { server }),
            when_found,
        ),
        call_ensures(
            LoadBalancer::<S>::serve_proxy,
            (&balancer, Selection::NoneAlive),
            when_none,
        ),
    ensures
        when_found == (ProxyAction::Forward { server }),
        when_none matches ProxyAction::Respond(reply) && reply.status == 503 && header_fields(
            reply.headers,
        ).dom() == Set::<Seq<char>>::empty() && reply.body@ == encode_utf8(
            "no healthy backends available"@,
        ),
{
    assert(Fields::empty().dom() =~= Set::<Seq<char>>::empty());
}

/// Health checks ask the servers from the first to the last, each after the one before it, and
/// wait after the last.
pub proof fn law_health_checks_go_round<S: Server>(
    balancer: LoadBalancer<S>,
    asked: usize,
    after_wait: HealthStep,
    after_asking: HealthStep,
)
    requires
        call_ensures(
            LoadBalancer::<S>::next_health_step,
            (&balancer, HealthStep::Wait),
            after_wait,
        ),
        call_ensures(
            LoadBalancer::<S>::next_health_step,
            (&balancer, HealthStep::Probe { server: asked }),
            after_asking,
        ),
    ensures
        balancer.backends().len() == 0 ==> after_wait == HealthStep::Wait,
        balancer.backends().len() > 0 ==> after_wait == (HealthStep::Probe { server: 0 }),
        asked + 1 < balancer.backends().len() ==> after_asking == (HealthStep::Probe {
            server: (asked + 1) as usize,
        }),
        asked + 1 >= balancer.backends().len() ==> after_asking == HealthStep::Wait,
{
}

} // verus!
