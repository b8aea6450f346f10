//! The consistent-hashing ring.
//!
//! Every server owns `REPLICAS` points on a circle of 32-bit hashes. A client
//! hashes to a place on the circle and belongs to the first point at or after
//! it, going round past the largest hash to the smallest.
use crate::hashing::hash32_of;
use crate::text::{decimal_digits, is_decimal, law_digits_are_unique, law_digits_read_back};
use vstd::prelude::*;
use vstd::relations::{sorted_by, total_ordering};

verus! {

/// Number of points that each server owns.
pub const REPLICAS: usize = 100;

/// A point of the ring: its place on the circle and the server that owns it.
#[derive(Clone, Copy, Debug, PartialEq, Eq, Structural)]
pub struct RingNode {
    pub hash: u32,
    pub idx: usize,
}

/// The order of the ring: by hash, and by server where hashes coincide.
pub open spec fn ring_order() -> spec_fn(RingNode, RingNode) -> bool {
    |a: RingNode, b: RingNode| a.hash < b.hash || (a.hash == b.hash && a.idx <= b.idx)
}

/// The text whose hash places one replica of a server.
pub open spec fn point_key(address: Seq<char>, replica: nat) -> Seq<char> {
    address + seq!['#'] + decimal_digits(replica)
}

/// The hashes of all points: the replicas of the first server, then those of the second, and
/// so on.
pub open spec fn point_hashes(addresses: Seq<Seq<char>>) -> Seq<u32> {
    Seq::new(
        addresses.len() * REPLICAS as nat,
        |i: int| hash32_of(point_key(addresses[i / REPLICAS as int], (i % REPLICAS as int) as nat)),
    )
}

/// The point with the `i`-th hash.
pub open spec fn point_at(hashes: Seq<u32>, i: int) -> RingNode {
    RingNode { hash: hashes[i], idx: (i / REPLICAS as int) as usize }
}

/// The points whose hashes are given server by server.
pub open spec fn points(hashes: Seq<u32>) -> Seq<RingNode> {
    Seq::new(hashes.len(), |i: int| point_at(hashes, i))
}

/// Whether `ring` holds exactly the points with the given hashes, in ring order.
pub open spec fn is_ring(ring: Seq<RingNode>, hashes: Seq<u32>) -> bool {
    &&& sorted_by(ring, ring_order())
    &&& ring.to_multiset() == points(hashes).to_multiset()
}

/// The position of the first node whose hash is at or after `key`, or the length of the ring.
pub open spec fn first_at_or_after(ring: Seq<RingNode>, key: u32) -> int
    decreases ring.len(),
{
    if ring.len() == 0 || ring[0].hash >= key {
        0
    } else {
        1 + first_at_or_after(ring.drop_first(), key)
    }
}

/// The position at which the search for a server starts: the first node at or after `key`,
/// or the first of all where the circle wraps.
pub open spec fn start_of(ring: Seq<RingNode>, key: u32) -> int {
    let first = first_at_or_after(ring, key);
    if first == ring.len() {
        0
    } else {
        first
    }
}

/// The ring order is total.
proof fn lemma_ring_order_total()
    ensures
        total_ordering(ring_order()),
{
}

/// Merges two sorted runs; on equal hashes the node of `a` comes first.
fn merge(a: &Vec<RingNode>, b: &Vec<RingNode>) -> (r: Vec<RingNode>)
    requires
        sorted_by(a@, ring_order()),
        sorted_by(b@, ring_order()),
        forall|i: int, j: int| 0 <= i < a.len() && 0 <= j < b.len() ==> a[i].idx <= b[j].idx,
    ensures
        sorted_by(r@, ring_order()),
        r@.to_multiset() == a@.to_multiset().add(b@.to_multiset()),
{
    broadcast use vstd::seq_lib::group_to_multiset_ensures;

    let mut r: Vec<RingNode> = Vec::new();
    let mut i: usize = 0;
    let mut j: usize = 0;
    assert(a@.take(0) == Seq::<RingNode>::empty());
    assert(b@.take(0) == Seq::<RingNode>::empty());
    assert(r@.to_multiset() =~= a@.take(0).to_multiset().add(b@.take(0).to_multiset()));
    while i < a.len() || j < b.len()
        invariant
            i <= a.len(),
            j <= b.len(),
            sorted_by(a@, ring_order()),
            sorted_by(b@, ring_order()),
            forall|x: int, y: int| 0 <= x < a.len() && 0 <= y < b.len() ==> a[x].idx <= b[y].idx,
            sorted_by(r@, ring_order()),
            r@.to_multiset() == a@.take(i as int).to_multiset().add(
                b@.take(j as int).to_multiset(),
            ),
            forall|k: int, x: int|
                0 <= k < r.len() && i <= x < a.len() ==> #[trigger] ring_order()(r@[k], a@[x]),
            forall|k: int, y: int|
                0 <= k < r.len() && j <= y < b.len() ==> #[trigger] ring_order()(r@[k], b@[y]),
        decreases a.len() - i + b.len() - j,
    {
        broadcast use vstd::seq_lib::group_to_multiset_ensures;

        let from_a = j == b.len() || (i < a.len() && a[i].hash <= b[j].hash);
        let ghost before = r@;
        if from_a {
            r.push(a[i]);
            proof {
                assert(a@.take(i + 1) == a@.take(i as int).push(a@[i as int]));
                assert(r@.to_multiset() =~= a@.take(i + 1).to_multiset().add(
                    b@.take(j as int).to_multiset(),
                ));
            }
            i = i + 1;
            assert forall|k: int, x: int|
                0 <= k < r.len() && i <= x < a.len() implies #[trigger] ring_order()(
                r@[k],
                a@[x],
            ) by {
                if k < before.len() {
                    assert(ring_order()(before[k], a@[x]));
                } else {
                    assert(ring_order()(a@[i - 1], a@[x]));
                }
            }
            assert forall|k: int, y: int|
                0 <= k < r.len() && j <= y < b.len() implies #[trigger] ring_order()(
                r@[k],
                b@[y],
            ) by {
                if k < before.len() {
                    assert(ring_order()(before[k], b@[y]));
                } else if y > j {
                    assert(ring_order()(b@[j as int], b@[y]));
                }
            }
        } else {
            r.push(b[j]);
            proof {
                assert(b@.take(j + 1) == b@.take(j as int).push(b@[j as int]));
                assert(r@.to_multiset() =~= a@.take(i as int).to_multiset().add(
                    b@.take(j + 1).to_multiset(),
                ));
            }
            j = j + 1;
            assert forall|k: int, x: int|
                0 <= k < r.len() && i <= x < a.len() implies #[trigger] ring_order()(
                r@[k],
                a@[x],
            ) by {
                if k < before.len() {
                    assert(ring_order()(before[k], a@[x]));
                } else if x > i {
                    assert(ring_order()(a@[i as int], a@[x]));
                }
            }
            assert forall|k: int, y: int|
                0 <= k < r.len() && j <= y < b.len() implies #[trigger] ring_order()(
                r@[k],
                b@[y],
            ) by {
                if k < before.len() {
                    assert(ring_order()(before[k], b@[y]));
                } else {
                    assert(ring_order()(b@[j - 1], b@[y]));
                }
            }
        }
    }
    assert(a@.take(i as int) == a@);
    assert(b@.take(j as int) == b@);
    r
}

/// Sorts the nodes from `lo` up to `hi` by hash, keeping the order of nodes with equal hashes.
fn sort_range(nodes: &Vec<RingNode>, lo: usize, hi: usize) -> (r: Vec<RingNode>)
    requires
        lo <= hi <= nodes.len(),
        forall|i: int, j: int| lo <= i <= j < hi ==> nodes[i].idx <= nodes[j].idx,
    ensures
        sorted_by(r@, ring_order()),
        r@.to_multiset() == nodes@.subrange(lo as int, hi as int).to_multiset(),
    decreases hi - lo,
{
    if hi - lo == 0 {
        assert(nodes@.subrange(lo as int, hi as int) == Seq::<RingNode>::empty());
        Vec::new()
    } else if hi - lo == 1 {
        let mut r: Vec<RingNode> = Vec::new();
        r.push(nodes[lo]);
        assert(nodes@.subrange(lo as int, hi as int) == r@);
        r
    } else {
        let mid: usize = lo + (hi - lo) / 2;
        let left = sort_range(nodes, lo, mid);
        let right = sort_range(nodes, mid, hi);
        proof {
            let lower = nodes@.subrange(lo as int, mid as int);
            let upper = nodes@.subrange(mid as int, hi as int);
            assert(lower + upper == nodes@.subrange(lo as int, hi as int));
            vstd::seq_lib::lemma_multiset_commutative(lower, upper);
            assert forall|i: int, j: int|
                0 <= i < left.len() && 0 <= j < right.len() implies left[i].idx
                <= right[j].idx by {
                lemma_same_members(left@, lower, left@[i]);
                lemma_same_members(right@, upper, right@[j]);
                let x = lower.index_of(left@[i]);
                let y = upper.index_of(right@[j]);
                assert(lower[x] == nodes[lo + x]);
                assert(upper[y] == nodes[mid + y]);
            }
        }
        merge(&left, &right)
    }
}

/// Sequences with the same multiset have the same members.
proof fn lemma_same_members<A>(a: Seq<A>, b: Seq<A>, x: A)
    requires
        a.to_multiset() == b.to_multiset(),
    ensures
        a.contains(x) == b.contains(x),
        a.len() == b.len(),
{
    vstd::seq_lib::to_multiset_contains(a, x);
    vstd::seq_lib::to_multiset_contains(b, x);
    vstd::seq_lib::to_multiset_len(a);
    vstd::seq_lib::to_multiset_len(b);
}

/// Builds the ring from the hashes of its points, given server by server.
pub fn ring_from_hashes(hashes: &Vec<u32>) -> (ring: Vec<RingNode>)
    ensures
        is_ring(ring@, hashes@),
{
    let mut nodes: Vec<RingNode> = Vec::new();
    let mut i: usize = 0;
    while i < hashes.len()
        invariant
            i <= hashes.len(),
            nodes@ == points(hashes@).take(i as int),
        decreases hashes.len() - i,
    {
        nodes.push(RingNode { hash: hashes[i], idx: i / REPLICAS });
        i = i + 1;
        assert(nodes@ == points(hashes@).take(i as int));
    }
    assert(points(hashes@).take(i as int) == points(hashes@));
    assert forall|x: int, y: int| 0 <= x <= y < nodes.len() implies nodes[x].idx
        <= nodes[y].idx by {
        assert(x / REPLICAS as int <= y / REPLICAS as int) by (nonlinear_arith)
            requires
                x <= y,
                REPLICAS == 100,
        ;
    }
    let ring = sort_range(&nodes, 0, nodes.len());
    assert(nodes@.subrange(0, nodes.len() as int) == nodes@);
    ring
}

/// The position at which the search for a server starts.
pub fn start_index(ring: &Vec<RingNode>, key: u32) -> (start: usize)
    requires
        sorted_by(ring@, ring_order()),
        ring.len() > 0,
    ensures
        start == start_of(ring@, key),
        start < ring.len(),
{
    let mut left: usize = 0;
    let mut right: usize = ring.len();
    while left < right
        invariant
            left <= right <= ring.len(),
            sorted_by(ring@, ring_order()),
            forall|i: int| 0 <= i < left ==> ring[i].hash < key,
            forall|i: int| right <= i < ring.len() ==> ring[i].hash >= key,
        decreases right - left,
    {
        let mid: usize = left + (right - left) / 2;
        if ring[mid].hash < key {
            assert forall|i: int| 0 <= i <= mid implies ring[i].hash < key by {
                if i < mid {
                    assert(ring_order()(ring@[i], ring@[mid as int]));
                }
            }
            left = mid + 1;
        } else {
            assert forall|i: int| mid <= i < ring.len() implies ring[i].hash >= key by {
                if mid < i {
                    assert(ring_order()(ring@[mid as int], ring@[i]));
                }
            }
            right = mid;
        }
    }
    proof {
        lemma_first_at_or_after(ring@, key, left as int);
    }
    if left == ring.len() {
        0
    } else {
        left
    }
}

/// The first node at or after `key` is the one before which all hashes are smaller.
proof fn lemma_first_at_or_after(ring: Seq<RingNode>, key: u32, at: int)
    requires
        0 <= at <= ring.len(),
        forall|i: int| 0 <= i < at ==> ring[i].hash < key,
        at < ring.len() ==> ring[at].hash >= key,
    ensures
        first_at_or_after(ring, key) == at,
    decreases ring.len(),
{
    if at > 0 {
        lemma_first_at_or_after(ring.drop_first(), key, at - 1);
    }
}

/// The ring is determined by the hashes of its points.
pub proof fn law_ring_is_unique(a: Seq<RingNode>, b: Seq<RingNode>, hashes: Seq<u32>)
    requires
        is_ring(a, hashes),
        is_ring(b, hashes),
    ensures
        a == b,
{
    lemma_ring_order_total();
    vstd::seq_lib::lemma_sorted_unique(a, b, ring_order());
}

/// A ring has as many nodes as there are hashes, and its members are the points.
pub(crate) proof fn lemma_ring_members(ring: Seq<RingNode>, hashes: Seq<u32>)
    requires
        is_ring(ring, hashes),
    ensures
        ring.len() == hashes.len(),
        forall|n: RingNode| #[trigger] ring.contains(n) == points(hashes).contains(n),
{
    lemma_same_members(ring, points(hashes), arbitrary());
    assert forall|n: RingNode| #[trigger] ring.contains(n) == points(hashes).contains(n) by {
        lemma_same_members(ring, points(hashes), n);
    }
}

/// A client belongs to the next node on the circle: the least, in ring order, of the nodes at or
/// after its key, or the least of all where the circle wraps.
pub proof fn law_client_belongs_to_the_next_node(ring: Seq<RingNode>, key: u32)
    requires
        sorted_by(ring, ring_order()),
        ring.len() > 0,
    ensures
        0 <= start_of(ring, key) < ring.len(),
        ring[start_of(ring, key)].hash >= key ==> forall|k: int|
            0 <= k < ring.len() && ring[k].hash >= key ==> #[trigger] ring_order()(
                ring[start_of(ring, key)],
                ring[k],
            ),
        ring[start_of(ring, key)].hash < key ==> forall|k: int|
            0 <= k < ring.len() ==> ring[k].hash < key && #[trigger] ring_order()(
                ring[start_of(ring, key)],
                ring[k],
            ),
{
    lemma_first_splits(ring, key);
    let start = start_of(ring, key);
    assert forall|k: int| start <= k < ring.len() implies #[trigger] ring_order()(
        ring[start],
        ring[k],
    ) by {}
}

/// All hashes before the first node at or after `key` are smaller, and that node's is not.
pub(crate) proof fn lemma_first_splits(ring: Seq<RingNode>, key: u32)
    ensures
        0 <= first_at_or_after(ring, key) <= ring.len(),
        forall|i: int| 0 <= i < first_at_or_after(ring, key) ==> ring[i].hash < key,
        first_at_or_after(ring, key) < ring.len() ==> ring[first_at_or_after(ring, key)].hash
            >= key,
    decreases ring.len(),
{
    if ring.len() > 0 && ring[0].hash < key {
        let rest = ring.drop_first();
        lemma_first_splits(rest, key);
        assert forall|i: int| 0 <= i < first_at_or_after(ring, key) implies ring[i].hash < key by {
            if i > 0 {
                assert(ring[i] == rest[i - 1]);
            }
        }
    }
}

/// The point of one replica of one server.
pub open spec fn server_point(addresses: Seq<Seq<char>>, server: int, replica: int) -> RingNode {
    RingNode {
        hash: hash32_of(point_key(addresses[server], replica as nat)),
        idx: server as usize,
    }
}

/// Every replica of every server has its point on the ring.
pub(crate) proof fn lemma_point_on_ring(
    addresses: Seq<Seq<char>>,
    ring: Seq<RingNode>,
    server: int,
    replica: int,
)
    requires
        is_ring(ring, point_hashes(addresses)),
        0 <= server < addresses.len(),
        0 <= replica < REPLICAS,
    ensures
        ring.contains(server_point(addresses, server, replica)),
{
    let hashes = point_hashes(addresses);
    let i = server * 100 + replica;
    assert(i / 100 == server && i % 100 == replica && 0 <= i < addresses.len() * 100)
        by (nonlinear_arith)
        requires
            i == server * 100 + replica,
            0 <= replica < 100,
            0 <= server < addresses.len(),
    ;
    lemma_ring_members(ring, hashes);
    assert(points(hashes)[i] == server_point(addresses, server, replica));
    assert(points(hashes).contains(server_point(addresses, server, replica)));
}

/// Every node of the ring is the point of some replica of some server.
pub(crate) proof fn lemma_node_is_point(
    addresses: Seq<Seq<char>>,
    ring: Seq<RingNode>,
    node: RingNode,
) -> (r: (int, int))
    requires
        is_ring(ring, point_hashes(addresses)),
        ring.contains(node),
    ensures
        0 <= r.0 < addresses.len(),
        0 <= r.1 < REPLICAS,
        node == server_point(addresses, r.0, r.1),
{
    let hashes = point_hashes(addresses);
    lemma_ring_members(ring, hashes);
    assert(points(hashes).contains(node));
    let i = choose|i: int| 0 <= i < points(hashes).len() && points(hashes)[i] == node;
    assert(0 <= i / 100 < addresses.len() && 0 <= i % 100 < 100) by (nonlinear_arith)
        requires
            0 <= i < addresses.len() * 100,
    ;
    (i / 100, i % 100)
}

/// The number of a server after another has been put in at position `at`.
pub open spec fn renumbered(server: usize, at: int) -> int {
    if server < at {
        server as int
    } else {
        server + 1
    }
}

/// Consistency of the hashing: when a server joins, a client either stays with the server it
/// had or moves to the new one. Read from the larger list to the smaller: when a server
/// leaves, only its own clients move.
pub proof fn law_only_the_joining_server_gains(
    addresses: Seq<Seq<char>>,
    at: int,
    address: Seq<char>,
    ring: Seq<RingNode>,
    grown: Seq<RingNode>,
    key: u32,
)
    requires
        0 < addresses.len() < usize::MAX,
        0 <= at <= addresses.len(),
        is_ring(ring, point_hashes(addresses)),
        is_ring(grown, point_hashes(addresses.insert(at, address))),
    ensures
        ({
            let had = ring[start_of(ring, key)].idx;
            let has = grown[start_of(grown, key)].idx;
            has == at || has == renumbered(had, at)
        }),
{
    let more = addresses.insert(at, address);
    lemma_ring_members(ring, point_hashes(addresses));
    lemma_ring_members(grown, point_hashes(more));
    assert(ring.len() > 0);
    assert(grown.len() > 0);
    law_client_belongs_to_the_next_node(ring, key);
    law_client_belongs_to_the_next_node(grown, key);
    let old_node = ring[start_of(ring, key)];
    let new_node = grown[start_of(grown, key)];
    // The old start node is on the grown ring under its new number.
    let (s, r) = lemma_node_is_point(addresses, ring, old_node);
    let s_new = if s < at { s } else { s + 1 };
    assert(more[s_new] == addresses[s]);
    let carried = server_point(more, s_new, r);
    lemma_point_on_ring(more, grown, s_new, r);
    let c = grown.index_of(carried);
    assert(grown[c] == carried);
    // The new start node, unless the new server owns it, was on the old ring.
    let (t, q) = lemma_node_is_point(more, grown, new_node);
    if t != at {
        let t_old = if t < at { t } else { t - 1 };
        assert(more[t] == addresses[t_old]);
        let origin = server_point(addresses, t_old, q);
        lemma_point_on_ring(addresses, ring, t_old, q);
        let o = ring.index_of(origin);
        assert(ring[o] == origin);
        if new_node.hash < key {
            assert(ring_order()(new_node, grown[c]));
            assert(ring_order()(old_node, ring[o]));
        } else {
            assert(ring_order()(old_node, ring[o]));
            assert(ring_order()(new_node, grown[c]));
        }
    }
}

/// Every server can be reached: each owns a node of the ring.
pub proof fn law_every_server_is_on_the_ring(
    addresses: Seq<Seq<char>>,
    ring: Seq<RingNode>,
    server: int,
)
    requires
        0 <= server < addresses.len() <= usize::MAX,
        is_ring(ring, point_hashes(addresses)),
    ensures
        exists|k: int| 0 <= k < ring.len() && (#[trigger] ring[k]).idx == server,
{
    lemma_point_on_ring(addresses, ring, server, 0);
    let k = ring.index_of(server_point(addresses, server, 0));
    assert(ring[k].idx == server);
}

/// Every node of the ring belongs to one of the servers.
pub proof fn law_nodes_name_servers(addresses: Seq<Seq<char>>, ring: Seq<RingNode>, k: int)
    requires
        addresses.len() <= usize::MAX,
        is_ring(ring, point_hashes(addresses)),
        0 <= k < ring.len(),
    ensures
        ring[k].idx < addresses.len(),
{
    let (s, r) = lemma_node_is_point(addresses, ring, ring[k]);
}

/// How many nodes pass a test depends only on which nodes there are.
proof fn lemma_filter_len(nodes: Seq<RingNode>, test: spec_fn(RingNode) -> bool)
    ensures
        nodes.filter(test).len() == nodes.to_multiset().filter(test).len(),
    decreases nodes.len(),
{
    broadcast use vstd::multiset::group_multiset_axioms;

    reveal_with_fuel(Seq::filter, 2);
    if nodes.len() == 0 {
        vstd::seq_lib::to_multiset_len(nodes);
        assert(nodes.to_multiset().filter(test) =~= vstd::multiset::Multiset::empty());
    } else {
        let earlier = nodes.drop_last();
        let last = nodes.last();
        lemma_filter_len(earlier, test);
        assert(earlier.push(last) == nodes);
        vstd::seq_lib::to_multiset_build(earlier, last);
        if test(last) {
            assert(nodes.to_multiset().filter(test) =~= earlier.to_multiset().filter(test).insert(
                last,
            ));
        } else {
            assert(nodes.to_multiset().filter(test) =~= earlier.to_multiset().filter(test));
        }
    }
}

/// The points of one server among the first `i` points.
proof fn lemma_points_of_server(hashes: Seq<u32>, server: int, i: int)
    requires
        0 <= i <= hashes.len(),
        0 <= server,
        hashes.len() <= usize::MAX * 100,
    ensures
        points(hashes).take(i).filter(|n: RingNode| n.idx == server).len() == if i <= server * 100 {
            0
        } else if i <= server * 100 + 100 {
            i - server * 100
        } else {
            100
        },
    decreases i,
{
    reveal_with_fuel(Seq::filter, 2);
    if i > 0 {
        let grown = points(hashes).take(i);
        assert(grown.drop_last() == points(hashes).take(i - 1));
        assert(grown.last() == point_at(hashes, i - 1));
        lemma_points_of_server(hashes, server, i - 1);
        assert((i - 1) / 100 == server <==> server * 100 <= i - 1 < server * 100 + 100);
    }
}

/// Every server owns the same number of nodes.
pub proof fn law_every_server_owns_replicas(
    addresses: Seq<Seq<char>>,
    ring: Seq<RingNode>,
    server: int,
)
    requires
        0 <= server < addresses.len() <= usize::MAX,
        is_ring(ring, point_hashes(addresses)),
    ensures
        ring.filter(|n: RingNode| n.idx == server).len() == REPLICAS,
{
    let hashes = point_hashes(addresses);
    let test = |n: RingNode| n.idx == server;
    lemma_filter_len(ring, test);
    lemma_filter_len(points(hashes), test);
    assert(points(hashes).take(hashes.len() as int) == points(hashes));
    lemma_points_of_server(hashes, server, hashes.len() as int);
}

/// Whether `key` is the whole address of a server, then `#`, then the number of a replica in base
/// ten.
pub open spec fn spells_replica(key: Seq<char>, address: Seq<char>, replica: nat) -> bool {
    &&& key.len() > address.len()
    &&& forall|i: int| 0 <= i < address.len() ==> #[trigger] key[i] == address[i]
    &&& key[address.len() as int] == '#'
    &&& is_decimal(key.skip(address.len() as int + 1), replica)
}

/// The text that is hashed for a replica is the whole address of its server, then `#`, then the
/// number of the replica in base ten; there is no other such text.
pub proof fn law_point_key_spells_the_replica(address: Seq<char>, replica: nat, key: Seq<char>)
    ensures
        spells_replica(key, address, replica) <==> key == point_key(address, replica),
{
    law_digits_read_back(replica);
    let own = point_key(address, replica);
    assert(own.skip(address.len() as int + 1) == decimal_digits(replica));
    if spells_replica(key, address, replica) {
        law_digits_are_unique(key.skip(address.len() as int + 1), replica);
        assert forall|i: int| 0 <= i < key.len() implies key[i] == own[i] by {
            if i > address.len() {
                assert(key[i] == key.skip(address.len() as int + 1)[i - address.len() - 1]);
            }
        }
        assert(key.len() == address.len() + 1 + decimal_digits(replica).len());
        assert(key =~= own);
    }
}

/// Different replicas, and replicas of servers with different addresses, are hashed from
/// different texts.
pub proof fn law_point_keys_differ(
    address: Seq<char>,
    replica: nat,
    other_address: Seq<char>,
    other_replica: nat,
)
    requires
        point_key(address, replica) == point_key(other_address, other_replica),
    ensures
        address == other_address,
        replica == other_replica,
{
    let key = point_key(address, replica);
    law_point_key_spells_the_replica(address, replica, key);
    law_point_key_spells_the_replica(other_address, other_replica, key);
    let a = address.len() as int;
    let b = other_address.len() as int;
    if a < b {
        assert(key.skip(a + 1)[b - a - 1] == '#');
        assert(false);
    } else if b < a {
        assert(key.skip(b + 1)[a - b - 1] == '#');
        assert(false);
    }
    assert forall|i: int| 0 <= i < a implies address[i] == other_address[i] by {
        assert(key[i] == address[i]);
    }
    assert(address =~= other_address);
}

/// A ring built from hashes has a node for each of them, the first hundred for the first server,
/// the next hundred for the second, and so on, and is in ascending order; among nodes with one
/// hash, that of the earlier server comes first.
pub proof fn law_ring_from_hashes(hashes: &Vec<u32>, ring: Vec<RingNode>)
    requires
        call_ensures(ring_from_hashes, (hashes,), ring),
    ensures
        ring@.to_multiset() == Seq::new(
            hashes@.len(),
            |i: int| RingNode { hash: hashes@[i], idx: (i / 100) as usize },
        ).to_multiset(),
        forall|i: int, j: int|
            0 <= i < j < ring.len() ==> (#[trigger] ring[i]).hash < (#[trigger] ring[j]).hash || (
            ring[i].hash == ring[j].hash && ring[i].idx <= ring[j].idx),
{
    assert(points(hashes@) =~= Seq::new(
        hashes@.len(),
        |i: int| RingNode { hash: hashes@[i], idx: (i / 100) as usize },
    ));
    assert forall|i: int, j: int| 0 <= i < j < ring.len() implies (#[trigger] ring[i]).hash < (
    #[trigger] ring[j]).hash || (ring[i].hash == ring[j].hash && ring[i].idx <= ring[j].idx) by {
        assert(ring_order()(ring@[i], ring@[j]));
    }
}

/// Whether `start` is where a search from `key` begins on a ring: at the first node whose hash is
/// not below the key, or at the first of all where there is none.
pub open spec fn is_start(ring: Seq<RingNode>, key: u32, start: int) -> bool {
    &&& 0 <= start < ring.len()
    &&& {
        ||| ring[start].hash >= key && forall|i: int|
            0 <= i < start ==> (#[trigger] ring[i]).hash < key
        ||| start == 0 && forall|i: int| 0 <= i < ring.len() ==> (#[trigger] ring[i]).hash < key
    }
}

/// A search begins at the first node whose hash is not below the key, or at the first of all
/// where there is none.
pub proof fn law_start(ring: Seq<RingNode>, key: u32)
    requires
        ring.len() > 0,
    ensures
        is_start(ring, key, start_of(ring, key)),
{
    lemma_first_splits(ring, key);
}

/// `start_index` gives the place where a search begins.
pub proof fn law_start_index(ring: &Vec<RingNode>, key: u32, start: usize)
    requires
        call_ensures(start_index, (ring, key), start),
        ring.len() > 0,
    ensures
        is_start(ring@, key, start as int),
{
    law_start(ring@, key);
}

} // verus!
