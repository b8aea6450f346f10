//! What becomes of the clients of a balancer when backends come and go, die and recover.
//!
//! Each backend is taken to give one answer throughout, whichever of its nodes is asked.
use crate::balancer::{
    addresses_of, begun, first_true, lemma_first_true, lemma_played, lemma_start_in_ring,
    node_owner, played, LoadBalancer, Selection,
};
use crate::ring::{
    first_at_or_after, is_ring, lemma_first_splits, lemma_node_is_point, lemma_point_on_ring,
    point_hashes, renumbered, ring_order, server_point, start_of, RingNode,
};
use crate::server::Server;
use vstd::prelude::*;
use vstd::relations::sorted_by;

verus! {

/// The answers that the search for a key's server gets, node by node, where `alive` says which
/// servers are alive.
pub open spec fn answers_from(ring: Seq<RingNode>, key: u32, alive: Seq<bool>) -> Seq<bool> {
    Seq::new(ring.len(), |k: int| alive[node_owner(ring, start_of(ring, key), k) as int])
}

/// How the search for a key's server ends, where `alive` says which servers are alive.
pub open spec fn placed(ring: Seq<RingNode>, key: u32, alive: Seq<bool>) -> Selection {
    played(ring, begun(ring, key), answers_from(ring, key, alive))
}

/// A selection, with servers numbered as after another has been put in at position `at`.
pub open spec fn selection_renumbered(selection: Selection, at: int) -> Selection {
    match selection {
        Selection::Found { server } => Selection::Found { server: renumbered(server, at) as usize },
        _ => selection,
    }
}

/// The order in which a search from `key` meets nodes: those at or after the key come before
/// those that the circle wraps round to.
spec fn met_by(key: u32, a: RingNode, b: RingNode) -> bool {
    if (a.hash >= key) == (b.hash >= key) {
        ring_order()(a, b)
    } else {
        a.hash >= key
    }
}

/// Whether a node is the first that a search meets among those whose servers are alive.
spec fn is_first_live(ring: Seq<RingNode>, key: u32, alive: Seq<bool>, node: RingNode) -> bool {
    &&& ring.contains(node)
    &&& alive[node.idx as int]
    &&& forall|other: RingNode| #[trigger]
        ring.contains(other) && alive[other.idx as int] ==> met_by(key, node, other)
}

/// The steps of a search visit the nodes in the order in which it meets them.
proof fn lemma_walk_order(ring: Seq<RingNode>, key: u32, j: int, k: int)
    requires
        sorted_by(ring, ring_order()),
        0 <= j <= k < ring.len(),
    ensures
        met_by(
            key,
            ring[(start_of(ring, key) + j) % ring.len() as int],
            ring[(start_of(ring, key) + k) % ring.len() as int],
        ),
{
    lemma_start_in_ring(ring, key);
    lemma_first_splits(ring, key);
    let n = ring.len() as int;
    let start = start_of(ring, key);
    let p = lemma_wraps(start, j, n);
    let q = lemma_wraps(start, k, n);
    let first = first_at_or_after(ring, key);
    assert forall|i: int| first <= i < n implies ring[i].hash >= key by {
        if first < i {
            assert(ring_order()(ring[first], ring[i]));
        }
    }
    if p < q {
        assert(ring_order()(ring[p], ring[q]));
    }
}

/// Where a step round a ring of `n` nodes leads.
proof fn lemma_wraps(start: int, step: int, n: int) -> (at: int)
    requires
        0 <= start < n,
        0 <= step < n,
    ensures
        at == (start + step) % n,
        0 <= at < n,
        at == (if start + step < n {
            start + step
        } else {
            start + step - n
        }),
{
    let at = if start + step < n {
        start + step
    } else {
        start + step - n
    };
    assert(at == (start + step) % n) by (nonlinear_arith)
        requires
            0 <= start < n,
            0 <= step < n,
            at == (if start + step < n {
                start + step
            } else {
                start + step - n
            }),
    ;
    at
}

/// The step at which a search comes to a node.
proof fn lemma_step_to(ring: Seq<RingNode>, key: u32, node: RingNode) -> (k: int)
    requires
        ring.contains(node),
    ensures
        0 <= k < ring.len(),
        ring[(start_of(ring, key) + k) % ring.len() as int] == node,
{
    lemma_start_in_ring(ring, key);
    let n = ring.len() as int;
    let start = start_of(ring, key);
    let q = ring.index_of(node);
    let k = if q >= start {
        q - start
    } else {
        q - start + n
    };
    let at = lemma_wraps(start, k, n);
    k
}

/// A search finds the server of the first live node that it meets, and none where no node is
/// live.
proof fn lemma_placed(ring: Seq<RingNode>, key: u32, alive: Seq<bool>) -> (node: RingNode)
    requires
        sorted_by(ring, ring_order()),
        ring.len() <= usize::MAX,
    ensures
        placed(ring, key, alive) is Found ==> {
            &&& is_first_live(ring, key, alive, node)
            &&& placed(ring, key, alive) == Selection::Found { server: node.idx }
        },
        !(placed(ring, key, alive) is Found) ==> {
            &&& placed(ring, key, alive) == Selection::NoneAlive
            &&& forall|other: RingNode| #[trigger]
                ring.contains(other) ==> !alive[other.idx as int]
        },
{
    let answers = answers_from(ring, key, alive);
    if ring.len() == 0 {
        arbitrary()
    } else {
        lemma_start_in_ring(ring, key);
        let start = start_of(ring, key);
        let n = ring.len() as int;
        lemma_played(ring, start as usize, 0, answers);
        lemma_first_true(answers);
        let f = first_true(answers);
        let node = ring[(start + f) % n];
        assert forall|other: RingNode| #[trigger]
            ring.contains(other) && alive[other.idx as int] implies f < n && met_by(
            key,
            node,
            other,
        ) by {
            let k = lemma_step_to(ring, key, other);
            assert(answers[k]);
            lemma_walk_order(ring, key, f, k);
        }
        if f < n {
            let at = lemma_wraps(start, f, n);
            assert(ring.contains(node));
            assert(answers[f]);
        }
        node
    }
}

/// A node, with servers numbered as after another has been put in at position `at`.
spec fn node_renumbered(node: RingNode, at: int) -> RingNode {
    RingNode { hash: node.hash, idx: renumbered(node.idx, at) as usize }
}

/// Every node stays on the ring when a server joins.
proof fn lemma_node_stays(
    addresses: Seq<Seq<char>>,
    at: int,
    address: Seq<char>,
    ring: Seq<RingNode>,
    grown: Seq<RingNode>,
    node: RingNode,
)
    requires
        addresses.len() < usize::MAX,
        0 <= at <= addresses.len(),
        is_ring(ring, point_hashes(addresses)),
        is_ring(grown, point_hashes(addresses.insert(at, address))),
        ring.contains(node),
    ensures
        node.idx < addresses.len(),
        grown.contains(node_renumbered(node, at)),
{
    let more = addresses.insert(at, address);
    let (s, r) = lemma_node_is_point(addresses, ring, node);
    let t = renumbered(s as usize, at);
    assert(more[t] == addresses[s]);
    lemma_point_on_ring(more, grown, t, r);
    assert(server_point(more, t, r) == node_renumbered(node, at));
}

/// Every node of a server that was there before was on the ring before another joined.
proof fn lemma_node_was_there(
    addresses: Seq<Seq<char>>,
    at: int,
    address: Seq<char>,
    ring: Seq<RingNode>,
    grown: Seq<RingNode>,
    node: RingNode,
) -> (before: RingNode)
    requires
        addresses.len() < usize::MAX,
        0 <= at <= addresses.len(),
        is_ring(ring, point_hashes(addresses)),
        is_ring(grown, point_hashes(addresses.insert(at, address))),
        grown.contains(node),
        node.idx != at,
    ensures
        before.idx < addresses.len(),
        ring.contains(before),
        node == node_renumbered(before, at),
{
    let more = addresses.insert(at, address);
    let (t, r) = lemma_node_is_point(more, grown, node);
    let s = if t < at {
        t
    } else {
        t - 1
    };
    assert(more[t] == addresses[s]);
    lemma_point_on_ring(addresses, ring, s, r);
    server_point(addresses, s, r)
}

/// What the search on the ring of a longer list of servers finds, against that on the ring
/// without the server at `at`.
proof fn lemma_one_server_more(
    addresses: Seq<Seq<char>>,
    at: int,
    address: Seq<char>,
    ring: Seq<RingNode>,
    grown: Seq<RingNode>,
    key: u32,
    alive: Seq<bool>,
)
    requires
        addresses.len() < usize::MAX,
        ring.len() <= usize::MAX,
        grown.len() <= usize::MAX,
        0 <= at <= addresses.len(),
        alive.len() == addresses.len() + 1,
        is_ring(ring, point_hashes(addresses)),
        is_ring(grown, point_hashes(addresses.insert(at, address))),
    ensures
        (alive[at] && placed(grown, key, alive) == (Selection::Found { server: at as usize }))
            || placed(grown, key, alive) == selection_renumbered(
            placed(ring, key, alive.remove(at)),
            at,
        ),
{
    let fewer = alive.remove(at);
    let had = lemma_placed(ring, key, fewer);
    let has = lemma_placed(grown, key, alive);
    assert forall|node: RingNode| #[trigger] ring.contains(node) implies {
        &&& grown.contains(node_renumbered(node, at))
        &&& alive[node_renumbered(node, at).idx as int] == fewer[node.idx as int]
    } by {
        lemma_node_stays(addresses, at, address, ring, grown, node);
    }
    if placed(grown, key, alive) is Found {
        if has.idx != at {
            let before = lemma_node_was_there(addresses, at, address, ring, grown, has);
            // The node was live before, so there was a first live node, and it is this one.
            assert(fewer[before.idx as int]);
            assert(met_by(key, had, before));
            assert(grown.contains(node_renumbered(had, at)));
            assert(met_by(key, has, node_renumbered(had, at)));
            assert(had == before);
        }
    } else if placed(ring, key, fewer) is Found {
        assert(grown.contains(node_renumbered(had, at)));
        assert(false);
    }
}

/// A server's coming or going moves only its own clients: a client that the balancer with the
/// server at `at` does not place there is placed on the same server by the balancer without it,
/// whichever servers are alive.
pub proof fn law_only_own_clients_move<S: Server>(
    whole: LoadBalancer<S>,
    rest: LoadBalancer<S>,
    at: int,
    key: u32,
    alive: Seq<bool>,
)
    requires
        whole.well_formed(),
        rest.well_formed(),
        0 <= at < whole.backends().len(),
        rest.backends() == whole.backends().remove(at),
        alive.len() == whole.backends().len(),
    ensures
        placed(whole.nodes(), key, alive) == (Selection::Found { server: at as usize }) || placed(
            whole.nodes(),
            key,
            alive,
        ) == selection_renumbered(placed(rest.nodes(), key, alive.remove(at)), at),
{
    lemma_balancers(whole, rest, at, key, alive);
}

/// A dead server is as good as absent: where the server at `at` does not answer, the search ends
/// as in the balancer without it.
pub proof fn law_a_dead_server_is_as_good_as_absent<S: Server>(
    whole: LoadBalancer<S>,
    rest: LoadBalancer<S>,
    at: int,
    key: u32,
    alive: Seq<bool>,
)
    requires
        whole.well_formed(),
        rest.well_formed(),
        0 <= at < whole.backends().len(),
        rest.backends() == whole.backends().remove(at),
        alive.len() == whole.backends().len(),
        !alive[at],
    ensures
        placed(whole.nodes(), key, alive) == selection_renumbered(
            placed(rest.nodes(), key, alive.remove(at)),
            at,
        ),
{
    lemma_balancers(whole, rest, at, key, alive);
}

/// A server that recovers takes clients to itself and moves no others; when it dies, only its
/// own clients move.
pub proof fn law_recovery_moves_only_own_clients<S: Server>(
    balancer: LoadBalancer<S>,
    at: int,
    key: u32,
    alive: Seq<bool>,
)
    requires
        balancer.well_formed(),
        0 <= at < balancer.backends().len(),
        alive.len() == balancer.backends().len(),
    ensures
        placed(balancer.nodes(), key, alive.update(at, true)) == (Selection::Found {
            server: at as usize,
        }) || placed(balancer.nodes(), key, alive.update(at, true)) == placed(
            balancer.nodes(),
            key,
            alive.update(at, false),
        ),
{
    let ring = balancer.nodes();
    let up = alive.update(at, true);
    let down = alive.update(at, false);
    let with = lemma_placed(ring, key, up);
    let without = lemma_placed(ring, key, down);
    assert forall|node: RingNode| #[trigger] ring.contains(node) implies node.idx
        < alive.len() by {
        let (s, r) = lemma_node_is_point(addresses_of(balancer.backends()), ring, node);
    }
    if placed(ring, key, up) is Found && with.idx != at {
        assert(down[with.idx as int]);
        assert(up[without.idx as int]);
    }
}

/// Where a balancer places a client, against where the balancer without the server at `at` does.
proof fn lemma_balancers<S: Server>(
    whole: LoadBalancer<S>,
    rest: LoadBalancer<S>,
    at: int,
    key: u32,
    alive: Seq<bool>,
)
    requires
        whole.well_formed(),
        rest.well_formed(),
        0 <= at < whole.backends().len(),
        rest.backends() == whole.backends().remove(at),
        alive.len() == whole.backends().len(),
    ensures
        (alive[at] && placed(whole.nodes(), key, alive) == (Selection::Found {
            server: at as usize,
        })) || placed(whole.nodes(), key, alive) == selection_renumbered(
            placed(rest.nodes(), key, alive.remove(at)),
            at,
        ),
{
    let more = addresses_of(whole.backends());
    let addresses = addresses_of(rest.backends());
    assert(more =~= addresses.insert(at, more[at]));
    lemma_one_server_more(addresses, at, more[at], rest.nodes(), whole.nodes(), key, alive);
}

} // verus!
