use runo::networking::client::{MessageQueue as ClientQueue, ServerMessages};
use runo::networking::server::{ClientMessages, MessageQueue};
use runo::networking::{decode, encode, GameMessage};

fn round_trip(m: GameMessage) {
    let bytes = encode(&m);
    assert_eq!(decode(&bytes), Some(m));
}

#[test]
fn round_trip_every_variant() {
    round_trip(GameMessage::DrawCard("Red 5".to_string()));
    round_trip(GameMessage::PlayCard("Wild Draw 4".to_string()));
    round_trip(GameMessage::ClearHand);
    round_trip(GameMessage::ClearDiscardPile);
    round_trip(GameMessage::CanPlayCards(vec!["Red 5".to_string(), "Wild".to_string()]));
}

#[test]
fn round_trip_edge_payloads() {
    round_trip(GameMessage::DrawCard(String::new()));
    round_trip(GameMessage::CanPlayCards(Vec::new()));
    round_trip(GameMessage::PlayCard("Grün 7 ★".to_string()));
    round_trip(GameMessage::CanPlayCards(vec![String::new(), "Blue Skip".to_string(), String::new()]));
}

#[test]
fn encoding_bytes_are_exact() {
    assert_eq!(encode(&GameMessage::ClearHand), vec![2, 0, 0, 0]);
    assert_eq!(encode(&GameMessage::ClearDiscardPile), vec![3, 0, 0, 0]);
    let mut expected = vec![0, 0, 0, 0, 5, 0, 0, 0, 0, 0, 0, 0];
    expected.extend_from_slice(b"Red 5");
    assert_eq!(encode(&GameMessage::DrawCard("Red 5".to_string())), expected);
    let mut expected = vec![4, 0, 0, 0, 2, 0, 0, 0, 0, 0, 0, 0];
    expected.extend_from_slice(&[5, 0, 0, 0, 0, 0, 0, 0]);
    expected.extend_from_slice(b"Red 5");
    expected.extend_from_slice(&[4, 0, 0, 0, 0, 0, 0, 0]);
    expected.extend_from_slice(b"Wild");
    let list = GameMessage::CanPlayCards(vec!["Red 5".to_string(), "Wild".to_string()]);
    assert_eq!(encode(&list), expected);
}

#[test]
fn encoding_matches_bincode_layout() {
    let draw = bincode::serialize(&(0u32, "Red 5".to_string())).unwrap();
    assert_eq!(encode(&GameMessage::DrawCard("Red 5".to_string())), draw);
    let play = bincode::serialize(&(1u32, "Wild".to_string())).unwrap();
    assert_eq!(encode(&GameMessage::PlayCard("Wild".to_string())), play);
    let clear = bincode::serialize(&2u32).unwrap();
    assert_eq!(encode(&GameMessage::ClearHand), clear);
    let names = vec!["Red 5".to_string(), "Wild".to_string()];
    let list = bincode::serialize(&(4u32, names.clone())).unwrap();
    assert_eq!(encode(&GameMessage::CanPlayCards(names)), list);
}

#[test]
fn decode_rejects_malformed_buffers() {
    assert_eq!(decode(&[]), None);
    assert_eq!(decode(&[2, 0, 0]), None);
    assert_eq!(decode(&[9, 0, 0, 0]), None);
    assert_eq!(decode(&[2, 0, 0, 0, 0]), None);
    // length prefix larger than the rest of the buffer
    assert_eq!(decode(&[0, 0, 0, 0, 9, 0, 0, 0, 0, 0, 0, 0, b'R', b'e', b'd']), None);
    // invalid UTF-8
    assert_eq!(decode(&[0, 0, 0, 0, 1, 0, 0, 0, 0, 0, 0, 0, 0xff]), None);
    // a list that announces more names than it holds
    assert_eq!(decode(&[4, 0, 0, 0, 1, 0, 0, 0, 0, 0, 0, 0]), None);
    let mut trailing = encode(&GameMessage::DrawCard("Red 5".to_string()));
    trailing.push(0);
    assert_eq!(decode(&trailing), None);
}

#[test]
fn decode_reads_handwritten_bytes() {
    let mut bytes = vec![1, 0, 0, 0, 4, 0, 0, 0, 0, 0, 0, 0];
    bytes.extend_from_slice(b"Wild");
    assert_eq!(decode(&bytes), Some(GameMessage::PlayCard("Wild".to_string())));
}

#[test]
fn server_queue_drains_in_order() {
    let mut q = MessageQueue::new();
    q.send_message(None, GameMessage::ClearHand);
    q.send_message(Some(7), GameMessage::DrawCard("Blue 3".to_string()));
    let out = q.drain_encoded();
    assert!(q.0.is_empty());
    assert_eq!(out.len(), 2);
    assert_eq!(out[0], (None, vec![2, 0, 0, 0]));
    assert_eq!(out[1].0, Some(7));
    assert_eq!(decode(&out[1].1), Some(GameMessage::DrawCard("Blue 3".to_string())));
    assert!(q.drain_encoded().is_empty());
}

#[test]
fn server_inbox_drops_bad_payloads_and_pops_latest_first() {
    let mut inbox = ClientMessages::new();
    assert!(inbox.receive(1, &encode(&GameMessage::PlayCard("Red 1".to_string()))));
    assert!(!inbox.receive(2, &[0xff, 0xff]));
    assert!(inbox.receive(3, &encode(&GameMessage::ClearDiscardPile)));
    assert_eq!(inbox.0.len(), 2);
    assert_eq!(inbox.pop_message(), Some((3, GameMessage::ClearDiscardPile)));
    assert_eq!(inbox.pop_message(), Some((1, GameMessage::PlayCard("Red 1".to_string()))));
    assert_eq!(inbox.pop_message(), None);
}

#[test]
fn client_queues() {
    let mut out = ClientQueue::new();
    out.send_message(GameMessage::PlayCard("Wild".to_string()));
    out.send_message(GameMessage::ClearHand);
    let bytes = out.drain_encoded();
    assert_eq!(bytes.len(), 2);
    assert_eq!(bytes[1], vec![2, 0, 0, 0]);
    assert!(out.drain_encoded().is_empty());

    let mut inbox = ServerMessages::new();
    assert!(inbox.receive(&bytes[0]));
    assert!(!inbox.receive(&[]));
    assert!(inbox.receive(&bytes[1]));
    assert_eq!(inbox.len(), 2);
    assert_eq!(inbox.pop_message(), Some(GameMessage::ClearHand));
    assert_eq!(inbox.pop_message(), Some(GameMessage::PlayCard("Wild".to_string())));
    assert_eq!(inbox.pop_message(), None);
}
