use runo::cards::{build_deck, Card};
use runo::game::systems::{
    deal_cards, deal_in_order, deck_handles, despawn_cards, despawn_deck, despawn_players,
    enter_awaiting_start, enter_dealing, enter_starting, spawn_cards, spawn_deck, spawn_players,
    update, wait_for_players,
};
use runo::game::{next_phase, GameState, PhaseEvent, Place, Session, SessionError, HAND_SIZE};
use runo::networking::server::MessageQueue;
use runo::networking::GameMessage;

fn sorted_names(cards: &[Card]) -> Vec<String> {
    let mut names: Vec<String> = cards.iter().map(|c| c.name()).collect();
    names.sort();
    names
}

fn all_cards(s: &Session) -> Vec<Card> {
    s.cards.iter().map(|e| e.card).collect()
}

fn clients(n: u64) -> Vec<u64> {
    (1..=n).map(|i| i * 100).collect()
}

#[test]
fn stays_awaiting_start_without_clients() {
    let mut s = Session::new();
    let mut q = MessageQueue::new();
    update(&mut s, &mut q, &Vec::new());
    assert_eq!(s.state, GameState::AwaitingStart);
    assert!(s.players.is_empty());
    assert!(s.cards.is_empty());
    assert!(!s.has_deck);
    assert!(q.0.is_empty());
}

#[test]
fn one_client_runs_through_to_playing() {
    let mut s = Session::new();
    let mut q = MessageQueue::new();
    update(&mut s, &mut q, &Vec::new());
    assert_eq!(s.state, GameState::AwaitingStart);
    update(&mut s, &mut q, &vec![42]);
    assert_eq!(s.state, GameState::Playing);
    assert_eq!(s.players, vec![42]);
    assert!(s.has_deck);
    assert_eq!(s.hand(42).len(), 7);
    assert_eq!(s.deck_size(), 108 - 7);
    assert_eq!(q.0.len(), 7);
    let mut dealt_names = Vec::new();
    for (target, message) in &q.0 {
        assert_eq!(*target, Some(42));
        match message {
            GameMessage::DrawCard(name) => dealt_names.push(name.clone()),
            other => panic!("unexpected message {:?}", other),
        }
    }
    dealt_names.sort();
    assert_eq!(dealt_names, sorted_names(&s.hand(42)));
}

#[test]
fn update_does_nothing_while_playing() {
    let mut s = Session::new();
    let mut q = MessageQueue::new();
    update(&mut s, &mut q, &vec![1]);
    assert_eq!(s.state, GameState::Playing);
    let cards_before = s.cards.clone();
    let queued = q.0.len();
    update(&mut s, &mut q, &vec![1, 2]);
    assert_eq!(s.state, GameState::Playing);
    assert_eq!(s.cards, cards_before);
    assert_eq!(s.players, vec![1]);
    assert_eq!(q.0.len(), queued);
}

#[test]
fn deal_conserves_cards() {
    let mut s = Session::new();
    let mut q = MessageQueue::new();
    spawn_players(&mut s, &clients(4));
    spawn_deck(&mut s);
    assert_eq!(spawn_cards(&mut s), Ok(()));
    let before = sorted_names(&build_deck());
    assert_eq!(deal_cards(&mut s, &mut q), Ok(()));
    let mut after: Vec<Card> = s
        .cards
        .iter()
        .filter(|e| e.place == Place::Deck)
        .map(|e| e.card)
        .collect();
    for id in clients(4) {
        after.extend(s.hand(id));
    }
    assert_eq!(sorted_names(&after), before);
    assert_eq!(sorted_names(&all_cards(&s)), before);
}

#[test]
fn deal_gives_seven_cards_to_each_player() {
    let mut s = Session::new();
    let mut q = MessageQueue::new();
    spawn_players(&mut s, &clients(4));
    spawn_deck(&mut s);
    spawn_cards(&mut s).unwrap();
    assert_eq!(deal_cards(&mut s, &mut q), Ok(()));
    for id in clients(4) {
        assert_eq!(s.hand(id).len(), HAND_SIZE);
    }
    assert_eq!(s.deck_size(), 108 - 28);
    assert_eq!(q.0.len(), 28);
    for (i, (target, _)) in q.0.iter().enumerate() {
        assert_eq!(*target, Some(clients(4)[i / 7]));
    }
}

#[test]
fn deal_boundary_fifteen_players_fit() {
    let mut s = Session::new();
    let mut q = MessageQueue::new();
    spawn_players(&mut s, &clients(15));
    spawn_deck(&mut s);
    spawn_cards(&mut s).unwrap();
    assert_eq!(deal_cards(&mut s, &mut q), Ok(()));
    for id in clients(15) {
        assert_eq!(s.hand(id).len(), 7);
    }
    assert_eq!(s.deck_size(), 3);
}

#[test]
fn deal_boundary_sixteen_players_exhaust_the_deck() {
    let mut s = Session::new();
    let mut q = MessageQueue::new();
    spawn_players(&mut s, &clients(16));
    spawn_deck(&mut s);
    spawn_cards(&mut s).unwrap();
    let cards_before = s.cards.clone();
    assert_eq!(deal_cards(&mut s, &mut q), Err(SessionError::DeckExhausted));
    assert_eq!(s.cards, cards_before);
    assert_eq!(s.deck_size(), 108);
    assert!(q.0.is_empty());
}

#[test]
fn exhausted_deck_resets_the_session() {
    let mut s = Session::new();
    let mut q = MessageQueue::new();
    update(&mut s, &mut q, &clients(16));
    assert_eq!(s.state, GameState::AwaitingStart);
    assert!(s.players.is_empty());
    assert!(s.cards.is_empty());
    assert!(!s.has_deck);
    assert_eq!(q.0, vec![(None, GameMessage::ClearHand)]);
}

#[test]
fn deal_in_order_takes_cards_from_the_end() {
    let mut s = Session::new();
    let mut q = MessageQueue::new();
    spawn_players(&mut s, &vec![5, 6]);
    spawn_deck(&mut s);
    spawn_cards(&mut s).unwrap();
    let order = deck_handles(&s);
    assert_eq!(order, (0..108).collect::<Vec<usize>>());
    assert_eq!(deal_in_order(&mut s, &mut q, &order), Ok(()));
    for h in 101..108 {
        assert_eq!(s.cards[h].place, Place::Hand(5));
    }
    for h in 94..101 {
        assert_eq!(s.cards[h].place, Place::Hand(6));
    }
    for h in 0..94 {
        assert_eq!(s.cards[h].place, Place::Deck);
    }
    assert_eq!(q.0[0], (Some(5), GameMessage::DrawCard(s.cards[107].card.name())));
    assert_eq!(q.0[7], (Some(6), GameMessage::DrawCard(s.cards[100].card.name())));
    // the last cards of a fresh deck are the wild cards
    assert_eq!(q.0[0].1, GameMessage::DrawCard("Wild Draw 4".to_string()));
    assert_eq!(q.0[1].1, GameMessage::DrawCard("Wild".to_string()));
}

#[test]
fn reset_twice_is_idempotent() {
    let mut s = Session::new();
    let mut q = MessageQueue::new();
    update(&mut s, &mut q, &vec![1, 2]);
    assert_eq!(s.state, GameState::Playing);
    q.0.clear();
    enter_awaiting_start(&mut s, &mut q);
    assert!(s.players.is_empty() && s.cards.is_empty() && !s.has_deck);
    assert_eq!(s.state, GameState::AwaitingStart);
    assert_eq!(q.0, vec![(None, GameMessage::ClearHand)]);
    enter_awaiting_start(&mut s, &mut q);
    assert!(s.players.is_empty() && s.cards.is_empty() && !s.has_deck);
    assert_eq!(s.state, GameState::AwaitingStart);
    assert_eq!(q.0, vec![(None, GameMessage::ClearHand), (None, GameMessage::ClearHand)]);
}

#[test]
fn despawn_steps() {
    let mut s = Session::new();
    let mut q = MessageQueue::new();
    update(&mut s, &mut q, &vec![9]);
    q.0.clear();
    despawn_deck(&mut s);
    assert!(!s.has_deck);
    assert_eq!(s.cards.len(), 108);
    despawn_players(&mut s);
    assert!(s.players.is_empty());
    despawn_cards(&mut s, &mut q);
    assert!(s.cards.is_empty());
    assert_eq!(q.0, vec![(None, GameMessage::ClearHand)]);
}

#[test]
fn spawn_players_registers_each_client_once() {
    let mut s = Session::new();
    spawn_players(&mut s, &vec![3, 1, 3, 2]);
    assert_eq!(s.players, vec![3, 1, 2]);
    spawn_players(&mut s, &vec![2, 4]);
    assert_eq!(s.players, vec![3, 1, 2, 4]);
}

#[test]
fn spawn_cards_needs_a_deck() {
    let mut s = Session::new();
    assert_eq!(spawn_cards(&mut s), Err(SessionError::NoDeck));
    assert!(s.cards.is_empty());
    spawn_deck(&mut s);
    assert_eq!(spawn_cards(&mut s), Ok(()));
    assert_eq!(s.cards.len(), 108);
    assert_eq!(s.deck_size(), 108);
}

#[test]
fn phase_table() {
    let (waiting, starting) = (GameState::AwaitingStart, GameState::Starting);
    let (dealing, playing) = (GameState::Dealing, GameState::Playing);
    assert_eq!(next_phase(waiting, PhaseEvent::EnoughPlayers), starting);
    assert_eq!(next_phase(starting, PhaseEvent::SetupDone), dealing);
    assert_eq!(next_phase(dealing, PhaseEvent::CardsDealt), playing);
    assert_eq!(next_phase(playing, PhaseEvent::Reset), waiting);
    assert_eq!(next_phase(dealing, PhaseEvent::Reset), waiting);
    assert_eq!(next_phase(playing, PhaseEvent::EnoughPlayers), playing);
    assert_eq!(next_phase(waiting, PhaseEvent::CardsDealt), waiting);
}

#[test]
fn wait_for_players_needs_a_client() {
    let mut s = Session::new();
    assert!(!wait_for_players(&mut s, &Vec::new()));
    assert_eq!(s.state, GameState::AwaitingStart);
    assert!(wait_for_players(&mut s, &vec![8]));
    assert_eq!(s.state, GameState::Starting);
}

#[test]
fn entering_starting_and_dealing() {
    let mut s = Session::new();
    let mut q = MessageQueue::new();
    enter_starting(&mut s, &mut q, &vec![11, 12, 13]);
    assert_eq!(s.state, GameState::Playing);
    assert_eq!(s.players, vec![11, 12, 13]);
    assert_eq!(s.deck_size(), 108 - 21);

    let mut fresh = Session::new();
    let mut q2 = MessageQueue::new();
    spawn_players(&mut fresh, &clients(20));
    enter_dealing(&mut fresh, &mut q2);
    assert_eq!(fresh.state, GameState::AwaitingStart);
    assert!(fresh.players.is_empty());
    assert_eq!(q2.0, vec![(None, GameMessage::ClearHand)]);
}

#[test]
fn dealing_shuffles_the_deck() {
    let mut s = Session::new();
    let mut q = MessageQueue::new();
    update(&mut s, &mut q, &vec![1]);
    let dealt: Vec<String> = q
        .0
        .iter()
        .map(|(_, m)| match m {
            GameMessage::DrawCard(name) => name.clone(),
            other => panic!("unexpected message {:?}", other),
        })
        .collect();
    // Without a shuffle the player would get the last seven cards of a
    // freshly built deck, which alternate between the two wild kinds.
    let unshuffled: Vec<String> = (0..7)
        .map(|i| if i % 2 == 0 { "Wild Draw 4" } else { "Wild" }.to_string())
        .collect();
    assert_ne!(dealt, unshuffled);
}
