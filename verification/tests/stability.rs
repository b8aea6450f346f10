use net_tools::balancer::{LoadBalancer, ProxyAction};
use net_tools::hashing::hash32;
use net_tools::server::SimpleServer;
use std::sync::Arc;

const ADDRESSES: [&str; 4] = ["http://a:1", "http://b:2", "http://c:3", "http://d:4"];

fn balancer(addresses: &[&str]) -> Arc<LoadBalancer<SimpleServer>> {
    let servers = addresses.iter().map(|a| SimpleServer::new(a.to_string())).collect();
    LoadBalancer::new("8000".to_string(), servers)
}

fn without<T: Copy>(list: &[T], at: usize) -> Vec<T> {
    let mut rest = list.to_vec();
    rest.remove(at);
    rest
}

fn placed(lb: &LoadBalancer<SimpleServer>, client: &str, alive: &[bool]) -> Option<usize> {
    let mut selection = lb.select_for_key(hash32(client));
    loop {
        match lb.serve_proxy(selection) {
            ProxyAction::Probe { server } => selection = lb.on_probe(selection, alive[server]),
            ProxyAction::Forward { server } => return Some(server),
            ProxyAction::Respond(_) => return None,
        }
    }
}

fn renumbered(server: usize, at: usize) -> usize {
    if server < at {
        server
    } else {
        server + 1
    }
}

#[test]
fn only_own_clients_move() {
    let whole = balancer(&ADDRESSES);
    let mut moved = 0;
    for at in 0..4 {
        let rest = balancer(&without(&ADDRESSES, at));
        for alive in [[true; 4], [true, false, true, true], [false, true, false, true]] {
            for client in 0..60 {
                let ip = format!("10.0.0.{}", client);
                let has = placed(&whole, &ip, &alive);
                let had = placed(&rest, &ip, &without(&alive, at));
                if has == Some(at) {
                    moved += 1;
                } else {
                    assert_eq!(has, had.map(|s| renumbered(s, at)));
                }
            }
        }
    }
    assert!(moved > 0);
}

#[test]
fn a_dead_server_is_as_good_as_absent() {
    let whole = balancer(&ADDRESSES);
    for at in 0..4 {
        let rest = balancer(&without(&ADDRESSES, at));
        let mut alive = [true; 4];
        alive[at] = false;
        for client in 0..60 {
            let ip = format!("10.0.1.{}", client);
            let has = placed(&whole, &ip, &alive);
            assert_eq!(has, placed(&rest, &ip, &[true; 3]).map(|s| renumbered(s, at)));
            assert_ne!(has, Some(at));
        }
    }
    let alone = balancer(&["http://a:1"]);
    assert_eq!(placed(&alone, "10.0.0.1", &[false]), None);
    assert_eq!(placed(&balancer(&[]), "10.0.0.1", &[]), None);
}

#[test]
fn recovery_brings_back_own_clients_only() {
    let lb = balancer(&ADDRESSES);
    let mut back = 0;
    for client in 0..60 {
        let ip = format!("10.0.2.{}", client);
        let up = placed(&lb, &ip, &[true, true, true, true]);
        let down = placed(&lb, &ip, &[true, true, false, true]);
        if up == Some(2) {
            back += 1;
            assert_ne!(down, Some(2));
        } else {
            assert_eq!(up, down);
        }
    }
    assert!(back > 0);
}
