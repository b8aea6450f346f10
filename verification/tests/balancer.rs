use net_tools::balancer::{HealthStep, LoadBalancer, ProxyAction, Selection};
use net_tools::hashing::hash32;
use net_tools::server::{Server, SimpleServer};
use reqwest::header::{HeaderMap, HeaderValue};
use std::sync::Arc;

fn balancer(addresses: &[&str]) -> Arc<LoadBalancer<SimpleServer>> {
    let servers = addresses.iter().map(|a| SimpleServer::new(a.to_string())).collect();
    LoadBalancer::new("8000".to_string(), servers)
}

fn run(lb: &LoadBalancer<SimpleServer>, mut selection: Selection, alive: &[bool]) -> (Option<usize>, usize) {
    let mut probes = 0;
    loop {
        match lb.serve_proxy(selection) {
            ProxyAction::Probe { server } => {
                probes += 1;
                selection = lb.on_probe(selection, alive[server]);
            }
            ProxyAction::Forward { server } => return (Some(server), probes),
            ProxyAction::Respond(reply) => {
                assert_eq!(reply.status, 503);
                assert_eq!(reply.body, b"no healthy backends available".to_vec());
                assert!(reply.headers.is_empty());
                return (None, probes);
            }
        }
    }
}

#[test]
fn new_balancer_keeps_port_and_servers() {
    let lb = balancer(&["http://localhost:8001", "http://localhost:8002"]);
    assert_eq!(lb.port, "8000");
    assert_eq!(lb.servers().len(), 2);
    assert_eq!(lb.servers()[1].address(), "http://localhost:8002");
}

#[test]
fn without_servers_the_service_is_unavailable() {
    let lb = balancer(&[]);
    let selection = lb.get_server_for_client(Some("10.0.0.1"), &HeaderMap::new());
    assert_eq!(selection, Selection::NoneAlive);
    assert_eq!(run(&lb, selection, &[]), (None, 0));
}

#[test]
fn live_owner_serves_at_once() {
    let lb = balancer(&["a", "b", "c"]);
    for client in ["10.0.0.1", "10.0.0.2", "10.9.8.7"] {
        let selection = lb.get_server_for_client(Some(client), &HeaderMap::new());
        assert_eq!(selection, lb.select_for_key(hash32(client)));
        let (server, probes) = run(&lb, selection, &[true, true, true]);
        assert!(server.is_some());
        assert_eq!(probes, 1);
        assert_eq!(run(&lb, selection, &[true, true, true]).0, server);
    }
}

#[test]
fn clients_pass_over_dead_servers() {
    let lb = balancer(&["a", "b", "c"]);
    for client in 0..50 {
        let ip = format!("10.1.1.{}", client);
        let selection = lb.get_server_for_client(Some(&ip), &HeaderMap::new());
        let owner = run(&lb, selection, &[true; 3]).0.unwrap();
        let mut alive = [true; 3];
        alive[owner] = false;
        let (next, probes) = run(&lb, selection, &alive);
        assert_ne!(next, Some(owner));
        assert!(next.is_some());
        assert!(probes > 1);
    }
}

#[test]
fn giving_up_takes_every_node() {
    let lb = balancer(&["a", "b"]);
    let selection = lb.get_server_for_client(None, &HeaderMap::new());
    assert_eq!(run(&lb, selection, &[false, false]), (None, 200));
}

#[test]
fn ended_selections_ignore_answers() {
    let lb = balancer(&["a"]);
    assert_eq!(lb.on_probe(Selection::Found { server: 0 }, false), Selection::Found { server: 0 });
    assert_eq!(lb.on_probe(Selection::NoneAlive, true), Selection::NoneAlive);
    assert_eq!(
        lb.on_probe(Selection::Probing { start: 3, tried: 99 }, false),
        Selection::NoneAlive
    );
    assert_eq!(
        lb.on_probe(Selection::Probing { start: 3, tried: 98 }, false),
        Selection::Probing { start: 3, tried: 99 }
    );
    assert_eq!(
        lb.on_probe(Selection::Probing { start: 99, tried: 99 }, true),
        Selection::Found { server: 0 }
    );
}

#[test]
fn forwarded_clients_are_placed_by_their_own_address() {
    let lb = balancer(&["a", "b", "c"]);
    let mut headers = HeaderMap::new();
    headers.insert("x-forwarded-for", HeaderValue::from_static("10.0.0.1, 192.168.0.1"));
    assert_eq!(
        lb.get_server_for_client(Some("192.168.0.9"), &headers),
        lb.select_for_key(hash32("10.0.0.1"))
    );
    assert_eq!(
        lb.get_server_for_client(None, &HeaderMap::new()),
        lb.select_for_key(hash32("0.0.0.0"))
    );
}

#[test]
fn health_checks_go_round() {
    let lb = balancer(&["a", "b", "c"]);
    let mut step = HealthStep::Wait;
    let mut steps = Vec::new();
    for _ in 0..8 {
        step = lb.next_health_step(step);
        steps.push(step);
    }
    let round = [
        HealthStep::Probe { server: 0 },
        HealthStep::Probe { server: 1 },
        HealthStep::Probe { server: 2 },
        HealthStep::Wait,
    ];
    assert_eq!(&steps[..4], &round[..]);
    assert_eq!(&steps[4..], &round[..]);
    assert_eq!(lb.next_health_step(HealthStep::Probe { server: usize::MAX }), HealthStep::Wait);
}

#[test]
fn without_servers_health_checks_only_wait() {
    let lb = balancer(&[]);
    assert_eq!(lb.next_health_step(HealthStep::Wait), HealthStep::Wait);
    assert_eq!(lb.next_health_step(HealthStep::Probe { server: 0 }), HealthStep::Wait);
}
