use net_tools::balancer::{LoadBalancer, Selection};
use net_tools::hashing::hash32;
use net_tools::ring::{ring_from_hashes, start_index, RingNode, REPLICAS};
use net_tools::server::SimpleServer;

fn hashes_of(addresses: &[&str]) -> Vec<u32> {
    let mut hashes = Vec::new();
    for address in addresses {
        for replica in 0..REPLICAS {
            hashes.push(hash32(&format!("{}#{}", address, replica)));
        }
    }
    hashes
}

fn ring_of(addresses: &[&str]) -> Vec<RingNode> {
    ring_from_hashes(&hashes_of(addresses))
}

#[test]
fn nodes_are_sorted_and_ties_keep_the_order_of_servers() {
    let mut hashes = vec![7u32; 2 * REPLICAS];
    hashes[3] = 2;
    hashes[REPLICAS + 5] = 2;
    hashes[REPLICAS + 6] = u32::MAX;
    let ring = ring_from_hashes(&hashes);
    assert_eq!(ring.len(), 200);
    assert_eq!(ring[0], RingNode { hash: 2, idx: 0 });
    assert_eq!(ring[1], RingNode { hash: 2, idx: 1 });
    assert_eq!(ring[2], RingNode { hash: 7, idx: 0 });
    assert_eq!(ring[100], RingNode { hash: 7, idx: 0 });
    assert_eq!(ring[101], RingNode { hash: 7, idx: 1 });
    assert_eq!(ring[199], RingNode { hash: u32::MAX, idx: 1 });
}

#[test]
fn ring_equals_a_stable_sort() {
    let hashes = hashes_of(&["http://localhost:8001", "http://localhost:8002", "c"]);
    let mut expected: Vec<RingNode> = hashes
        .iter()
        .enumerate()
        .map(|(i, h)| RingNode { hash: *h, idx: i / REPLICAS })
        .collect();
    expected.sort_by_key(|n| n.hash);
    assert_eq!(ring_from_hashes(&hashes), expected);
    assert_eq!(ring_from_hashes(&Vec::new()), Vec::new());
}

#[test]
fn search_starts_at_the_next_node_and_wraps() {
    let ring: Vec<RingNode> = [10u32, 20, 20, 30]
        .iter()
        .enumerate()
        .map(|(i, h)| RingNode { hash: *h, idx: i })
        .collect();
    assert_eq!(start_index(&ring, 0), 0);
    assert_eq!(start_index(&ring, 10), 0);
    assert_eq!(start_index(&ring, 11), 1);
    assert_eq!(start_index(&ring, 20), 1);
    assert_eq!(start_index(&ring, 21), 3);
    assert_eq!(start_index(&ring, 30), 3);
    assert_eq!(start_index(&ring, 31), 0);
    assert_eq!(start_index(&ring, u32::MAX), 0);
}

#[test]
fn every_server_owns_its_replicas() {
    let ring = ring_of(&["a", "b", "c", "d"]);
    for server in 0..4 {
        assert_eq!(ring.iter().filter(|n| n.idx == server).count(), 100);
    }
}

#[test]
fn only_the_joining_server_gains_clients() {
    let before = ring_of(&["a", "b", "c"]);
    let after = ring_of(&["a", "new", "b", "c"]);
    let mut moved = 0;
    for client in 0..2000u32 {
        let key = hash32(&format!("10.0.{}.{}", client / 256, client % 256));
        let had = before[start_index(&before, key)].idx;
        let has = after[start_index(&after, key)].idx;
        if has == 1 {
            moved += 1;
        } else {
            assert_eq!(has, if had < 1 { had } else { had + 1 });
        }
    }
    assert!(moved > 0 && moved < 2000);
}

#[test]
fn balancer_places_the_points_of_its_servers() {
    let lb = LoadBalancer::new(
        "8000".to_string(),
        vec![SimpleServer::new("a".to_string()), SimpleServer::new("b".to_string())],
    );
    let ring = ring_of(&["a", "b"]);
    for key in [0u32, 1, 0x1234_5678, 0x8000_0000, u32::MAX] {
        let start = start_index(&ring, key);
        assert_eq!(lb.select_for_key(key), Selection::Probing { start, tried: 0 });
    }
}
