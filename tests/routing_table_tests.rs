use kademlia_node::config::{K, MAX_NODES_PER_IP, N, N_BITS};
use kademlia_node::id::bucket_index;
use kademlia_node::routing_table::{sort_by_distance, Bucket, NodeInfo, PeerAddr, RoutingTable};

fn addr(a: u8, b: u8, port: u16) -> PeerAddr {
    let mut ip = [0u8; 16];
    ip[0] = 10;
    ip[1] = a;
    ip[2] = b;
    ip[3] = 1;
    PeerAddr { ip, v6: false, port }
}

fn node(id: [u8; 20], n: u8) -> NodeInfo {
    NodeInfo::new(id, addr(n, n, 4000 + n as u16))
}

fn id_with(first: u8, last: u8) -> [u8; 20] {
    let mut id = [0u8; 20];
    id[0] = first;
    id[19] = last;
    id
}

#[test]
fn bucket_full_evicts_oldest_and_appends() {
    let mut b = Bucket::new();
    for i in 0..K {
        b.add(node(id_with(1, i as u8), i as u8));
    }
    assert_eq!(b.nodes.len(), K);
    b.add(node(id_with(1, 200), 200));
    assert_eq!(b.nodes.len(), K);
    assert_eq!(b.nodes[0].id, id_with(1, 1));
    assert_eq!(b.nodes[K - 1].id, id_with(1, 200));
    assert!(b.nodes.iter().all(|n| n.id != id_with(1, 0)));
}

#[test]
fn bucket_known_peer_moves_to_tail() {
    let mut b = Bucket::new();
    b.add(node(id_with(1, 1), 1));
    b.add(node(id_with(1, 2), 2));
    b.add(node(id_with(1, 1), 1));
    assert_eq!(b.nodes.len(), 2);
    assert_eq!(b.nodes[0].id, id_with(1, 2));
    assert_eq!(b.nodes[1].id, id_with(1, 1));
    b.remove(&id_with(1, 2));
    assert_eq!(b.nodes.len(), 1);
    b.remove(&id_with(9, 9));
    assert_eq!(b.nodes.len(), 1);
}

#[test]
fn table_never_holds_own_id() {
    let own = id_with(0, 0);
    let mut t = RoutingTable::new(own);
    t.add_node(node(own, 1));
    assert!(!t.contains(&own));
    assert!(t.get_all_nodes().is_empty());
    assert!(t.random_node().is_none());
}

#[test]
fn add_contains_get_remove() {
    let own = id_with(0, 0);
    let mut t = RoutingTable::new(own);
    let a = node(id_with(0x40, 1), 1);
    t.add_node(a);
    assert!(t.contains(&a.id));
    let got = t.get_node(&a.id).expect("present");
    assert_eq!(got.id, a.id);
    assert_eq!(got.reputation, 0);
    let b = bucket_index(&a.id, &own);
    assert_eq!(b, 1);
    assert_eq!(t.buckets[1].nodes.len(), 1);
    assert!(t.get_node(&id_with(0x40, 2)).is_none());
    t.remove_node(&a.id);
    assert!(!t.contains(&a.id));
}

#[test]
fn per_ip_cap_refuses_sixth_node() {
    let own = id_with(0, 0);
    let mut t = RoutingTable::new(own);
    for i in 0..(MAX_NODES_PER_IP + 1) {
        t.add_node(NodeInfo::new(id_with(0x80, i as u8), addr(7, 7, 5000 + i as u16)));
    }
    assert_eq!(t.count_nodes_by_ip(&addr(7, 7, 1)), MAX_NODES_PER_IP);
    assert_eq!(t.get_all_nodes().len(), MAX_NODES_PER_IP);
    assert!(!t.contains(&id_with(0x80, MAX_NODES_PER_IP as u8)));
    t.add_node(NodeInfo::new(id_with(0x80, 99), addr(7, 8, 1)));
    assert!(t.contains(&id_with(0x80, 99)));
}

#[test]
fn reputation_below_threshold_bans_for_good() {
    let own = id_with(0, 0);
    let mut t = RoutingTable::new(own);
    let p = node(id_with(0x10, 1), 1);
    t.add_node(p);
    for _ in 0..5 {
        t.adjust_reputation(&p.id, -1);
    }
    assert_eq!(t.get_node(&p.id).unwrap().reputation, -5);
    assert!(t.contains(&p.id));
    t.adjust_reputation(&p.id, -1);
    assert!(!t.contains(&p.id));
    assert!(t.get_all_nodes().iter().all(|n| n.id != p.id));
    assert!(t.is_banned_id(&p.id));
    t.add_node(node(p.id, 1));
    assert!(!t.contains(&p.id));
    t.add_node(NodeInfo { id: p.id, addr: addr(3, 3, 3), reputation: 100 });
    assert!(!t.contains(&p.id));
}

#[test]
fn reputation_adjustment_saturates_and_ignores_unknown() {
    let own = id_with(0, 0);
    let mut t = RoutingTable::new(own);
    let p = node(id_with(0x10, 1), 1);
    t.add_node(p);
    t.adjust_reputation(&p.id, i32::MAX);
    t.adjust_reputation(&p.id, 5);
    assert_eq!(t.get_node(&p.id).unwrap().reputation, i32::MAX);
    t.adjust_reputation(&id_with(0x10, 2), -100);
    assert!(!t.is_banned_id(&id_with(0x10, 2)));
}

#[test]
fn find_closest_sorted_bounded_without_self() {
    let own = id_with(0, 0);
    let mut t = RoutingTable::new(own);
    let mut n: u8 = 0;
    for first in [0x80u8, 0x40, 0x20, 0x10] {
        for last in 0..10u8 {
            n = n.wrapping_add(1);
            t.add_node(NodeInfo::new(id_with(first, last), addr(n, 0, 1000)));
        }
    }
    let target = id_with(0x41, 3);
    let r = t.find_closest(&target);
    assert_eq!(r.len(), K);
    assert!(r.iter().all(|x| x.id != own));
    let dist = |id: &[u8; 20]| -> Vec<u8> { id.iter().zip(target.iter()).map(|(a, b)| a ^ b).collect() };
    for w in r.windows(2) {
        assert!(dist(&w[0].id) <= dist(&w[1].id));
    }
    assert_eq!(r[0].id, id_with(0x40, 3));
}

#[test]
fn find_closest_with_few_nodes_returns_all() {
    let own = id_with(0, 0);
    let mut t = RoutingTable::new(own);
    t.add_node(node(id_with(0x01, 1), 1));
    t.add_node(node(id_with(0x80, 1), 2));
    let r = t.find_closest(b"k");
    assert_eq!(r.len(), 2);
    let empty = RoutingTable::new(own);
    assert!(empty.find_closest(&own).is_empty());
}

#[test]
fn sort_by_distance_is_stable() {
    let target = [0u8; 20];
    let a = NodeInfo::new(id_with(0, 5), addr(1, 1, 1));
    let b = NodeInfo::new(id_with(0, 1), addr(2, 2, 2));
    let c = NodeInfo::new(id_with(0, 5), addr(3, 3, 3));
    let r = sort_by_distance(&vec![a, b, c], &target);
    assert_eq!(r[0].id, b.id);
    assert_eq!(r[1].addr.ip, a.addr.ip);
    assert_eq!(r[2].addr.ip, c.addr.ip);
}

#[test]
fn random_sampling_stays_in_table() {
    let own = id_with(0, 0);
    let mut t = RoutingTable::new(own);
    for i in 0..8u8 {
        t.add_node(node(id_with(0x20, i), i));
    }
    let one = t.random_node().expect("non-empty");
    assert!(t.contains(&one.id));
    let some = t.random_nodes(N);
    assert_eq!(some.len(), N);
    for (i, x) in some.iter().enumerate() {
        assert!(t.contains(&x.id));
        assert!(some[i + 1..].iter().all(|y| y.id != x.id));
    }
    assert_eq!(t.random_nodes(100).len(), 8);
    assert_eq!(t.buckets.len(), N_BITS);
}

#[test]
fn xor_distance_bytes() {
    assert_eq!(RoutingTable::xor_distance(&[0x0f, 0xf0], &[0xff, 0xff]), vec![0xf0, 0x0f]);
    assert_eq!(RoutingTable::xor_distance(&[1, 2, 3], &[1]), vec![0]);
}

#[test]
fn node_equality_is_by_identifier() {
    let a = NodeInfo::new(id_with(1, 1), addr(1, 1, 1));
    let b = NodeInfo { id: id_with(1, 1), addr: addr(2, 2, 2), reputation: 7 };
    let c = NodeInfo::new(id_with(1, 2), addr(1, 1, 1));
    assert!(a == b);
    assert!(a != c);
}
