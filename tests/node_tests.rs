use kademlia_node::identity::Identity;
use kademlia_node::lookup::Lookup;
use kademlia_node::node::{FindNodeStep, Node, RequestHandler};
use kademlia_node::protocol::{FindNodeResponse, RequestError};
use kademlia_node::routing_table::{NodeInfo, PeerAddr};
use kademlia_node::storage::Storage;

fn local(port: u16) -> PeerAddr {
    let mut ip = [0u8; 16];
    ip[0] = 127;
    ip[3] = 1;
    PeerAddr { ip, v6: false, port }
}

fn make_node(port: u16) -> Node {
    let identity = Identity::generate(1, 100_000).expect("identity");
    Node::new(identity, local(port))
}

fn ping(from: &mut Node, to: &mut Node) -> Result<[u8; 20], RequestError> {
    let req = from.client.create_ping_request(&from.keypair, from.id, from.addr);
    let r = RequestHandler::handle_ping(to, &req);
    from.client.finish_request(&from.id, r.is_ok());
    r.map(|p| p.node_id)
}

fn find_node(from: &mut Node, to: &mut Node, target: [u8; 20]) -> Vec<NodeInfo> {
    let req = from.client.create_find_node_request(&from.keypair, from.id, from.addr, target.to_vec());
    let step = RequestHandler::handle_find_node(to, &req).expect("accepted");
    from.client.finish_request(&from.id, true);
    match step {
        FindNodeStep::Answer(a) => a.nodes,
        FindNodeStep::Lookup(_) => panic!("expected an answer at once"),
    }
}

#[test]
fn bootstrap_learns_bootstrap_peer_and_its_peers() {
    let mut a = make_node(7001);
    let mut b = make_node(7002);
    let c = make_node(7003);
    b.routing_table.add_node(NodeInfo::new(c.id, c.addr));
    let b_id = ping(&mut a, &mut b).expect("ping accepted");
    assert_eq!(b_id, b.id);
    let nodes = find_node(&mut a, &mut b, b_id);
    assert!(nodes.iter().any(|n| n.id == c.id));
    assert!(nodes.iter().all(|n| n.id == c.id || n.id == a.id));
    a.absorb_bootstrap(NodeInfo::new(b_id, b.addr), &nodes);
    assert!(a.routing_table.contains(&b.id));
    assert!(a.routing_table.contains(&c.id));
    assert!(!a.routing_table.contains(&a.id));
    assert_eq!(a.routing_table.get_all_nodes().len(), 2);
}

#[test]
fn iterative_lookup_finds_node_two_hops_away() {
    let mut a = make_node(7011);
    let mut b = make_node(7012);
    let mut c = make_node(7013);
    a.routing_table.add_node(NodeInfo::new(b.id, b.addr));
    b.routing_table.add_node(NodeInfo::new(c.id, c.addr));
    let c_id = c.id;
    let seed = a.routing_table.find_closest(&c_id);
    let mut lookup = Lookup::new(c_id, a.id, &seed, a.id);
    let mut rounds = 0;
    while !lookup.done {
        rounds += 1;
        assert!(rounds <= 2, "the lookup must converge within two rounds");
        while let Some(peer) = lookup.next_query() {
            let target_node: &mut Node = if peer.id == b.id {
                &mut b
            } else if peer.id == c_id {
                &mut c
            } else {
                panic!("queried a peer nobody knows")
            };
            let answer = find_node(&mut a, target_node, c_id);
            lookup.on_response(&answer);
        }
        lookup.finish_round();
    }
    assert_eq!(rounds, 2);
    let response: FindNodeResponse = RequestHandler::finish_find_node(&a, &lookup);
    assert_eq!(response.nodes[0].id, c_id);
    assert!(response.nodes.iter().any(|n| n.id == b.id));
    assert!(response.nodes.iter().all(|n| n.id != a.id));
}

#[test]
fn find_node_starts_lookup_for_unknown_target() {
    let mut a = make_node(7021);
    let mut x = make_node(7022);
    let unknown = [0x55u8; 20];
    let req = a.client.create_find_node_request(&a.keypair, a.id, a.addr, unknown.to_vec());
    match RequestHandler::handle_find_node(&mut x, &req).expect("accepted") {
        FindNodeStep::Lookup(l) => {
            assert_eq!(l.target, unknown);
            assert_eq!(l.queried, vec![a.id]);
            assert!(!l.done);
            let mut l = l;
            assert!(l.next_query().is_none());
            l.finish_round();
            assert!(l.done);
            let r = RequestHandler::finish_find_node(&x, &l);
            assert_eq!(r.nodes.len(), 1);
            assert_eq!(r.nodes[0].id, a.id);
            let empty = Lookup::new(unknown, x.id, &Vec::new(), a.id);
            let r = RequestHandler::finish_find_node(&x, &empty);
            assert_eq!(r.nodes.len(), 1);
            assert_eq!(r.nodes[0].id, x.id);
        }
        FindNodeStep::Answer(_) => panic!("the target is unknown"),
    }
}

#[test]
fn store_twice_forwards_once() {
    let mut r = make_node(7031);
    let mut x = make_node(7032);
    let y = make_node(7033);
    x.routing_table.add_node(NodeInfo::new(y.id, y.addr));
    let req = r.client.create_store_node_request(&r.keypair, r.id, r.addr, b"k".to_vec(), b"v".to_vec());
    let first = RequestHandler::handle_store(&mut x, &req).expect("stored");
    r.client.finish_request(&r.id, true);
    assert!(first.response.success);
    assert!(!first.forward_to.is_empty());
    assert!(first.forward_to.iter().any(|n| n.id == y.id));
    let again = r.client.create_store_node_request(&r.keypair, r.id, r.addr, b"k".to_vec(), b"v".to_vec());
    let second = RequestHandler::handle_store(&mut x, &again).expect("stored");
    r.client.finish_request(&r.id, true);
    assert!(second.response.success);
    assert!(second.forward_to.is_empty());
    let changed = r.client.create_store_node_request(&r.keypair, r.id, r.addr, b"k".to_vec(), b"w".to_vec());
    let third = RequestHandler::handle_store(&mut x, &changed).expect("stored");
    assert!(!third.forward_to.is_empty());
    assert_eq!(x.storage.get(b"k"), Some(b"w".to_vec()));
}

#[test]
fn store_does_not_forward_to_own_address() {
    let mut r = make_node(7041);
    let mut x = make_node(7042);
    let twin = Identity::generate(1, 100_000).expect("identity");
    x.routing_table.add_node(NodeInfo::new(twin.id, x.addr));
    let req = r.client.create_store_node_request(&r.keypair, r.id, r.addr, b"a".to_vec(), b"b".to_vec());
    let out = RequestHandler::handle_store(&mut x, &req).expect("stored");
    assert!(out.forward_to.iter().all(|n| n.id != twin.id));
    assert!(out.forward_to.iter().any(|n| n.id == r.id));
}

#[test]
fn find_value_hit_and_miss() {
    let mut r = make_node(7051);
    let mut x = make_node(7052);
    let req = r.client.create_store_node_request(&r.keypair, r.id, r.addr, b"k".to_vec(), b"v".to_vec());
    RequestHandler::handle_store(&mut x, &req).expect("stored");
    r.client.finish_request(&r.id, true);
    let hit = r.client.create_find_value_request(&r.keypair, r.id, r.addr, b"k".to_vec());
    let got = RequestHandler::handle_find_value(&mut x, &hit).expect("answered");
    r.client.finish_request(&r.id, true);
    assert_eq!(got.value, b"v".to_vec());
    assert!(got.nodes.is_empty());
    let miss = r.client.create_find_value_request(&r.keypair, r.id, r.addr, b"unknown".to_vec());
    let got = RequestHandler::handle_find_value(&mut x, &miss).expect("answered");
    assert!(got.value.is_empty());
    assert_eq!(got.nodes.len(), 1);
    assert_eq!(got.nodes[0].id, r.id);
}

#[test]
fn ping_answers_and_records_requester() {
    let mut a = make_node(7061);
    let mut b = make_node(7062);
    assert_eq!(ping(&mut a, &mut b), Ok(b.id));
    let entry = b.routing_table.get_node(&a.id).expect("requester recorded");
    assert_eq!(entry.reputation, 1);
    assert_eq!(entry.addr.port, 7061);
}

#[test]
fn replayed_request_is_refused_and_penalised() {
    let mut a = make_node(7071);
    let mut b = make_node(7072);
    let req = a.client.create_ping_request(&a.keypair, a.id, a.addr);
    assert!(RequestHandler::handle_ping(&mut b, &req).is_ok());
    assert_eq!(RequestHandler::handle_ping(&mut b, &req).unwrap_err(), RequestError::Unauthenticated);
    assert_eq!(b.routing_table.get_node(&a.id).unwrap().reputation, 0);
}

#[test]
fn bad_signature_is_unauthenticated() {
    let mut a = make_node(7081);
    let mut b = make_node(7082);
    let mut req = a.client.create_ping_request(&a.keypair, a.id, a.addr);
    req.credentials.signature[0] ^= 0xff;
    assert_eq!(RequestHandler::handle_ping(&mut b, &req).unwrap_err(), RequestError::Unauthenticated);
    assert!(!b.routing_table.contains(&a.id));
    assert_eq!(b.crypto.last_nonce(&a.id), None);
}

#[test]
fn malformed_requests_change_nothing() {
    let mut a = make_node(7091);
    let mut b = make_node(7092);
    let mut req = a.client.create_ping_request(&a.keypair, a.id, a.addr);
    req.credentials.requester_node_id.pop();
    assert_eq!(RequestHandler::handle_ping(&mut b, &req).unwrap_err(), RequestError::Malformed);
    let fnr = a.client.create_find_node_request(&a.keypair, a.id, a.addr, vec![1, 2, 3]);
    match RequestHandler::handle_find_node(&mut b, &fnr) {
        Err(e) => assert_eq!(e, RequestError::Malformed),
        Ok(_) => panic!("a short target is malformed"),
    }
    assert!(b.routing_table.get_all_nodes().is_empty());
}

#[test]
fn maintenance_choices() {
    let mut a = make_node(7101);
    assert!(a.refresh_target().is_none());
    assert!(a.liveness_targets().is_empty());
    let d = Node::next_refresh_delay();
    assert!((5..=20).contains(&d));
    let p = Node::next_ping_delay();
    assert!((5..=20).contains(&p));
    let b = make_node(7102);
    a.update_routing_table(&vec![NodeInfo::new(b.id, b.addr), a.self_info()]);
    assert_eq!(a.refresh_target().unwrap().id, b.id);
    assert_eq!(a.liveness_targets().len(), 1);
    a.evict(&b.id);
    assert!(a.refresh_target().is_none());
}

#[test]
fn storage_insert_and_replace() {
    let mut s = Storage::new();
    assert_eq!(s.get(b"x"), None);
    s.insert(b"x", b"1");
    assert!(s.holds_value(b"x", b"1"));
    s.insert(b"x", b"2");
    assert_eq!(s.get(b"x"), Some(b"2".to_vec()));
    assert!(!s.holds_value(b"x", b"1"));
}

#[test]
fn update_routing_table_skips_self_known_and_refused() {
    let mut a = make_node(7111);
    let b = make_node(7112);
    let mut nodes = vec![a.self_info(), NodeInfo::new(b.id, b.addr), NodeInfo::new(b.id, local(9999))];
    for i in 0..6u8 {
        let mut id = [0xaau8; 20];
        id[19] = i;
        nodes.push(NodeInfo::new(id, local(8000 + i as u16)));
    }
    a.update_routing_table(&nodes);
    assert_eq!(a.routing_table.get_node(&b.id).unwrap().addr.port, 7112);
    assert_eq!(a.routing_table.get_all_nodes().len(), 5);
    assert!(!a.routing_table.contains(&a.id));
}

#[test]
fn refused_requests_lead_to_ban() {
    let mut a = make_node(7121);
    let mut b = make_node(7122);
    assert!(ping(&mut a, &mut b).is_ok());
    let mut bad = a.client.create_ping_request(&a.keypair, a.id, a.addr);
    bad.credentials.signature[1] ^= 1;
    for _ in 0..7 {
        assert_eq!(RequestHandler::handle_ping(&mut b, &bad).unwrap_err(), RequestError::Unauthenticated);
    }
    assert!(!b.routing_table.contains(&a.id));
    assert!(b.routing_table.is_banned_id(&a.id));
    assert!(ping(&mut a, &mut b).is_ok());
    assert!(!b.routing_table.contains(&a.id));
}

#[test]
fn stale_or_future_timestamps_are_refused() {
    let mut a = make_node(7131);
    let mut b = make_node(7132);
    let req = a.client.create_ping_request(&a.keypair, a.id, a.addr);
    let ts = req.credentials.timestamp;
    let late = ts + kademlia_node::config::REPLAY_WINDOW + 1;
    assert_eq!(RequestHandler::handle_ping_at(&mut b, &req, late).unwrap_err(), RequestError::Unauthenticated);
    let early = ts - kademlia_node::config::REPLAY_WINDOW - 1;
    assert_eq!(RequestHandler::handle_ping_at(&mut b, &req, early).unwrap_err(), RequestError::Unauthenticated);
    assert!(!b.routing_table.contains(&a.id));
    let ok = RequestHandler::handle_ping_at(&mut b, &req, ts + kademlia_node::config::REPLAY_WINDOW).expect("fresh");
    assert_eq!(ok.node_id, b.id);
    assert!(b.routing_table.contains(&a.id));
}

#[test]
fn clock_forms_of_store_find_value_and_find_node() {
    let mut r = make_node(7141);
    let mut x = make_node(7142);
    let store = r.client.create_store_node_request(&r.keypair, r.id, r.addr, b"k".to_vec(), b"v".to_vec());
    let now = store.credentials.timestamp;
    assert!(RequestHandler::handle_store_at(&mut x, &store, now + 10_000).is_err());
    assert_eq!(x.storage.get(b"k"), None);
    let out = RequestHandler::handle_store_at(&mut x, &store, now).expect("stored");
    assert!(out.response.success);
    r.client.finish_request(&r.id, true);
    let fv = r.client.create_find_value_request(&r.keypair, r.id, r.addr, b"k".to_vec());
    let got = RequestHandler::handle_find_value_at(&mut x, &fv, now).expect("answered");
    assert_eq!(got.value, b"v".to_vec());
    r.client.finish_request(&r.id, true);
    let fnr = r.client.create_find_node_request(&r.keypair, r.id, r.addr, x.id.to_vec());
    match RequestHandler::handle_find_node_at(&mut x, &fnr, now).expect("answered") {
        FindNodeStep::Answer(a) => assert!(a.nodes.iter().any(|n| n.id == r.id)),
        FindNodeStep::Lookup(_) => panic!("the target is the node itself"),
    }
}

#[test]
fn probe_results_decide_eviction() {
    let mut a = make_node(7151);
    let b = make_node(7152);
    a.update_routing_table(&vec![NodeInfo::new(b.id, b.addr)]);
    a.on_probe_result(&b.id, true);
    assert!(a.routing_table.contains(&b.id));
    a.on_probe_result(&b.id, false);
    assert!(!a.routing_table.contains(&b.id));
}
