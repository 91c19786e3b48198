use kademlia_node::client::Client;
use kademlia_node::config::{NONCE_INTERVAL, REPLAY_WINDOW, TIMEOUT_MAX_ATTEMPTS};
use kademlia_node::crypto::{is_fresh, nonce_in_window, Crypto};
use kademlia_node::signing::SigningKey;
use kademlia_node::message::{encode_request_message, KIND_PING, MESSAGE_VERSION};
use kademlia_node::routing_table::PeerAddr;

fn local(port: u16) -> PeerAddr {
    let mut ip = [0u8; 16];
    ip[0] = 127;
    ip[3] = 1;
    PeerAddr { ip, v6: false, port }
}

#[test]
fn freshness_window_both_directions() {
    assert!(is_fresh(1000, 1000));
    assert!(is_fresh(1000, 1000 - REPLAY_WINDOW));
    assert!(is_fresh(1000, 1000 + REPLAY_WINDOW));
    assert!(!is_fresh(1000, 1000 - REPLAY_WINDOW - 1));
    assert!(!is_fresh(1000, 1000 + REPLAY_WINDOW + 1));
    assert!(!is_fresh(i64::MAX, i64::MIN));
}

#[test]
fn nonce_window_rules() {
    assert!(nonce_in_window(None, 42));
    assert!(!nonce_in_window(Some(42), 42));
    assert!(nonce_in_window(Some(42), 42 + NONCE_INTERVAL));
    assert!(nonce_in_window(Some(42), 42 - NONCE_INTERVAL));
    assert!(!nonce_in_window(Some(42), 43 + NONCE_INTERVAL));
    assert!(!nonce_in_window(Some(i64::MIN), i64::MAX));
}

#[test]
fn nonce_ledger_replay_protection() {
    let mut c = Crypto::new();
    let peer = b"peer-a";
    assert!(c.validate_and_update_nonce(peer, 100));
    assert_eq!(c.last_nonce(peer), Some(100));
    assert!(!c.validate_and_update_nonce(peer, 100));
    assert!(c.validate_and_update_nonce(peer, 100 + NONCE_INTERVAL));
    assert!(!c.validate_and_update_nonce(peer, 100 + 3 * NONCE_INTERVAL));
    assert_eq!(c.last_nonce(peer), Some(100 + NONCE_INTERVAL));
    assert!(c.validate_and_update_nonce(b"peer-b", -7));
    assert_eq!(c.last_nonce(b"peer-b"), Some(-7));
    assert_eq!(c.last_nonce(b"peer-c"), None);
}

#[test]
fn message_encoding_layout() {
    let m = encode_request_message(KIND_PING, 258, &[9], &[1, 2], &[], &[7]);
    let mut expected = vec![MESSAGE_VERSION, KIND_PING, 0, 0, 0, 0, 0, 0, 1, 2];
    expected.extend_from_slice(&[0, 0, 0, 0, 0, 0, 0, 1, 9]);
    expected.extend_from_slice(&[0, 0, 0, 0, 0, 0, 0, 2, 1, 2]);
    expected.extend_from_slice(&[0, 0, 0, 0, 0, 0, 0, 0]);
    expected.extend_from_slice(&[0, 0, 0, 0, 0, 0, 0, 1, 7]);
    assert_eq!(m, expected);
    let neg = encode_request_message(KIND_PING, -1, &[], &[], &[], &[]);
    assert_eq!(&neg[2..10], &[0xff; 8]);
}

#[test]
fn signed_request_validates_once() {
    let keypair = SigningKey::generate().expect("keypair");
    let mut client = Client::new();
    let id = [3u8; 20];
    let req = client.create_ping_request(&keypair, id, local(1));
    assert_eq!(req.credentials.signature.len(), 64);
    assert_eq!(req.credentials.sender_public_key.len(), 32);
    assert_eq!(req.credentials.requester_node_id, id.to_vec());
    let message = req.message();
    let mut guard = Crypto::new();
    assert!(guard.validate_message_timestamp(req.credentials.timestamp));
    assert!(guard.validate_message_authenticity(&message, &req.credentials.signature, &req.credentials.sender_public_key));
    let c = &req.credentials;
    assert!(guard.validate_request(c.timestamp, c.nonce, &c.requester_node_id, &message, &c.signature, &c.sender_public_key));
    assert!(!guard.validate_request(c.timestamp, c.nonce, &c.requester_node_id, &message, &c.signature, &c.sender_public_key));
    let mut tampered = message.clone();
    tampered[2] ^= 1;
    assert!(!guard.validate_message_authenticity(&tampered, &c.signature, &c.sender_public_key));
}

#[test]
fn validate_request_at_checks_each_part() {
    let keypair = SigningKey::generate().expect("keypair");
    let mut client = Client::new();
    let req = client.create_ping_request(&keypair, [4u8; 20], local(2));
    let c = &req.credentials;
    let message = req.message();
    let mut guard = Crypto::new();
    let stale = c.timestamp + REPLAY_WINDOW + 1;
    assert!(!guard.validate_request_at(stale, c.timestamp, c.nonce, &c.requester_node_id, &message, &c.signature, &c.sender_public_key));
    assert_eq!(guard.last_nonce(&c.requester_node_id), None);
    assert!(!guard.validate_request_at(c.timestamp, c.timestamp, c.nonce, &c.requester_node_id, &message, &message, &c.sender_public_key));
    assert!(guard.validate_request_at(c.timestamp, c.timestamp, c.nonce, &c.requester_node_id, &message, &c.signature, &c.sender_public_key));
    assert_eq!(guard.last_nonce(&c.requester_node_id), Some(c.nonce));
}

#[test]
fn client_nonce_moves_only_after_delivery() {
    let keypair = SigningKey::generate().expect("keypair");
    let mut client = Client::new();
    let id = [5u8; 20];
    let first = client.create_ping_request(&keypair, id, local(3));
    let again = client.create_find_node_request(&keypair, id, local(3), vec![1; 20]);
    assert_eq!(first.credentials.nonce, again.credentials.nonce);
    assert_eq!(again.target_node_id, vec![1; 20]);
    client.finish_request(&id, false);
    let n = client.get_or_generate_nonce(&id);
    assert_eq!(n, first.credentials.nonce);
    client.finish_request(&id, true);
    let store = client.create_store_node_request(&keypair, id, local(3), b"k".to_vec(), b"v".to_vec());
    assert_eq!(store.credentials.nonce, n.wrapping_add(1));
    assert_eq!(store.key, b"k".to_vec());
    let fv = client.create_find_value_request(&keypair, id, local(3), b"k".to_vec());
    assert_eq!(fv.key, b"k".to_vec());
    client.increment_nonce(b"nobody");
    assert_eq!(client.get_or_generate_nonce(&id), n.wrapping_add(1));
}

#[test]
fn retry_budget() {
    assert!(Client::attempt_allowed(0));
    assert!(Client::attempt_allowed(TIMEOUT_MAX_ATTEMPTS - 1));
    assert!(!Client::attempt_allowed(TIMEOUT_MAX_ATTEMPTS));
}

#[test]
fn static_signature_check() {
    let keypair = SigningKey::generate().expect("keypair");
    let guard = Crypto::new();
    let signature = guard.sign_message(&keypair, b"hello");
    assert_eq!(signature.len(), 64);
    let pk = keypair.public_key();
    assert_eq!(pk.len(), 32);
    let mut client = Client::new();
    let req = client.create_ping_request(&keypair, [9u8; 20], local(9));
    assert_eq!(req.credentials.sender_public_key, pk);
    assert!(Crypto::validate_message(b"hello", &signature, &pk));
    assert!(!Crypto::validate_message(b"hellp", &signature, &pk));
    assert!(!Crypto::validate_message(b"hello", &signature[..63], &pk));
}

#[test]
fn raw_keypair_creation() {
    assert!(Crypto::create_keypair().is_ok());
}
