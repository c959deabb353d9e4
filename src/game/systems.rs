use crate::cards::{build_deck, copies_in_deck, Card, DECK_SIZE};
use crate::game::{
    cards_matching, deal_invariant, deal_message, dealt, deck_order, lemma_deal_step,
    lemma_matching_push, next_phase, register_all, reset_from, selected, set_up, spec_next_phase,
    CardEntry, GameState, PhaseEvent, Place, PlaceFilter, Session, SessionError, SessionView,
    HAND_SIZE,
};
use crate::networking::server::MessageQueue;
use crate::networking::{GameMessage, MessageView};
use rand::seq::SliceRandom;
use vstd::prelude::*;

verus! {

broadcast use {
    vstd::multiset::group_multiset_axioms,
    vstd::seq_lib::group_to_multiset_ensures,
};

/// Every registered player received seven more cards, all taken from the
/// deck.
pub open spec fn hands_dealt(old: SessionView, new: SessionView) -> bool {
    &&& forall|pi: int|
        0 <= pi < old.players.len() ==> (#[trigger] new.hand(old.players[pi])).len() == old.hand(
            old.players[pi],
        ).len() + 7
    &&& new.deck_cards().len() + 7 * old.players.len() == old.deck_cards().len()
}

/// The cards in the deck and in all hands together are the same before and
/// after: none was duplicated or lost.
pub open spec fn cards_conserved(old: SessionView, new: SessionView) -> bool {
    new.deck_cards().add(new.held_cards()) == old.deck_cards().add(old.held_cards())
}

/// What entering `Dealing` from `old` leads to: when the deck holds enough
/// cards for every player, a full deal in some order of the deck and the
/// `Playing` phase; otherwise a reset.
pub open spec fn dealing_outcome(
    old: SessionView,
    new: SessionView,
    q0: Seq<(Option<u64>, MessageView)>,
    q1: Seq<(Option<u64>, MessageView)>,
) -> bool {
    if 7 * old.players.len() <= old.deck_cards().len() {
        &&& new.state == GameState::Playing
        &&& exists|order: Seq<usize>| #[trigger] deck_order(old, order) && dealt(old, new, q0, q1, order)
        &&& hands_dealt(old, new)
        &&& cards_conserved(old, new)
    } else {
        reset_from(old, new, q0, q1)
    }
}

/// No hand holds a card while every card is in the deck.
proof fn lemma_no_hands(s: Seq<CardEntry>, id: u64)
    requires
        forall|j: int| 0 <= j < s.len() ==> (#[trigger] s[j]).place == Place::Deck,
    ensures
        cards_matching(s, PlaceFilter::HandOf(id)).len() == 0,
    decreases s.len(),
{
    if s.len() > 0 {
        lemma_no_hands(s.drop_last(), id);
    }
}

/// The first tick of a cleared session awaiting players, with connected
/// clients few enough for one deck, ends in `Playing` with one player per
/// distinct client, seven cards in each hand and the rest of the deck
/// undealt.
pub proof fn lemma_first_tick_deals(
    old: SessionView,
    new: SessionView,
    q0: Seq<(Option<u64>, MessageView)>,
    q1: Seq<(Option<u64>, MessageView)>,
    clients: Seq<u64>,
)
    requires
        old.is_cleared(),
        7 * register_all(old.players, clients).len() <= DECK_SIZE,
        exists|mid: SessionView|
            #[trigger] set_up(old, mid, clients) && mid.wf() && dealing_outcome(mid, new, q0, q1),
    ensures
        new.state == GameState::Playing,
        new.players == register_all(Seq::empty(), clients),
        forall|pi: int| 0 <= pi < new.players.len() ==> (#[trigger] new.hand(new.players[pi])).len() == 7,
        new.deck_cards().len() == DECK_SIZE - 7 * new.players.len(),
{
    let mid = choose|mid: SessionView|
        #[trigger] set_up(old, mid, clients) && mid.wf() && dealing_outcome(mid, new, q0, q1);
    assert(old.players =~= Seq::<u64>::empty());
    assert(old.deck_cards().len() == 0);
    assert forall|pi: int| 0 <= pi < new.players.len() implies (#[trigger] new.hand(
        new.players[pi],
    )).len() == 7 by {
        lemma_no_hands(mid.cards, mid.players[pi]);
        assert(new.hand(mid.players[pi]).len() == mid.hand(mid.players[pi]).len() + 7);
    }
}

/// The handles of the cards in the deck, in handle order.
pub fn deck_handles(s: &Session) -> (order: Vec<usize>)
    ensures
        deck_order(s@, order@),
{
    let mut order: Vec<usize> = Vec::new();
    for j in 0..s.cards.len()
        invariant
            forall|t: int|
                0 <= t < order@.len() ==> (#[trigger] order@[t]) < j && s.cards@[order@[t] as int].place
                    == Place::Deck,
            forall|t: int, u: int| 0 <= t < u < order@.len() ==> order@[t] < order@[u],
            order@.len() == cards_matching(s.cards@.take(j as int), PlaceFilter::Deck).len(),
    {
        proof {
            assert(s.cards@.take(j + 1) =~= s.cards@.take(j as int).push(s.cards@[j as int]));
            lemma_matching_push(s.cards@.take(j as int), s.cards@[j as int], PlaceFilter::Deck);
        }
        if let Place::Deck = s.cards[j].place {
            order.push(j);
        }
    }
    assert(s.cards@.take(s.cards@.len() as int) =~= s.cards@);
    order
}

/// Relies on `rand::seq::SliceRandom::shuffle` with `rand::thread_rng()`:
/// the elements are permuted in place, by swaps only.
#[verifier::external_body]
fn shuffle_handles(v: &mut Vec<usize>)
    ensures
        final(v)@.to_multiset() == old(v)@.to_multiset(),
{
    v.shuffle(&mut rand::thread_rng());
}

/// A permutation of a deck order is a deck order.
proof fn lemma_permuted_deck_order(s: SessionView, a: Seq<usize>, b: Seq<usize>)
    requires
        deck_order(s, a),
        b.to_multiset() == a.to_multiset(),
    ensures
        deck_order(s, b),
{
    assert(a.len() == a.to_multiset().len());
    assert(b.len() == b.to_multiset().len());
    a.lemma_multiset_has_no_duplicates();
    b.lemma_multiset_has_no_duplicates_conv();
    assert forall|t: int| 0 <= t < b.len() implies (#[trigger] b[t]) < s.cards.len()
        && s.cards[b[t] as int].place == Place::Deck by {
        assert(b.contains(b[t]));
        assert(b.to_multiset().count(b[t]) > 0);
        assert(a.to_multiset().count(b[t]) > 0);
        assert(a.contains(b[t]));
        let u = choose|u: int| 0 <= u < a.len() && a[u] == b[t];
        assert(a[u] == b[t]);
    }
}

/// Deals seven cards to each registered player, in the order in which the
/// players were registered, taking them from the end of `order`, and queues
/// a `DrawCard` message to the player for each card. Nothing happens when
/// the deck holds fewer cards than that.
pub fn deal_in_order(s: &mut Session, q: &mut MessageQueue, order: &Vec<usize>) -> (r: Result<
    (),
    SessionError,
>)
    requires
        old(s).wf(),
        deck_order(old(s)@, order@),
    ensures
        final(s).wf(),
        cards_conserved(old(s)@, final(s)@),
        match r {
            Ok(()) => {
                &&& 7 * old(s)@.players.len() <= old(s)@.deck_cards().len()
                &&& final(s)@.state == old(s)@.state
                &&& dealt(old(s)@, final(s)@, old(q)@, final(q)@, order@)
                &&& hands_dealt(old(s)@, final(s)@)
            },
            Err(e) => {
                &&& e == SessionError::DeckExhausted
                &&& 7 * old(s)@.players.len() > old(s)@.deck_cards().len()
                &&& final(s)@ == old(s)@
                &&& final(q)@ == old(q)@
            },
        },
{
    let n = s.players.len();
    let total = order.len();
    if n > total / HAND_SIZE {
        return Err(SessionError::DeckExhausted);
    }
    proof {
        assert(7 * n <= total) by (nonlinear_arith)
            requires
                n <= total / HAND_SIZE,
        ;
    }
    let ghost old_s = s@;
    let ghost old_q = q@;
    assert(deal_invariant(old_s, s@, old_q, q@, order@, 0));
    let mut next: usize = total;
    for pi in 0..n
        invariant
            n == old_s.players.len(),
            total == order@.len(),
            next == total - 7 * pi,
            deal_invariant(old_s, s@, old_q, q@, order@, 7 * pi),
    {
        let id = s.players[pi];
        for k in 0..HAND_SIZE
            invariant
                n == old_s.players.len(),
                total == order@.len(),
                0 <= pi < n,
                id == old_s.players[pi as int],
                next == total - (7 * pi + k),
                deal_invariant(old_s, s@, old_q, q@, order@, 7 * pi + k),
        {
            proof {
                lemma_deal_step(old_s, s@, old_q, q@, order@, pi as int, k as int);
            }
            next = next - 1;
            let h = order[next];
            let card = s.cards[h].card;
            s.cards[h] = CardEntry { card, place: Place::Hand(id) };
            q.send_message(Some(id), GameMessage::DrawCard(card.name()));
        }
    }
    Ok(())
}

/// Shuffles the deck uniformly at random and deals seven cards to each
/// registered player, as `deal_in_order` does for some order of the deck.
pub fn deal_cards(s: &mut Session, q: &mut MessageQueue) -> (r: Result<(), SessionError>)
    requires
        old(s).wf(),
    ensures
        final(s).wf(),
        cards_conserved(old(s)@, final(s)@),
        match r {
            Ok(()) => {
                &&& 7 * old(s)@.players.len() <= old(s)@.deck_cards().len()
                &&& final(s)@.state == old(s)@.state
                &&& exists|order: Seq<usize>|
                    #[trigger] deck_order(old(s)@, order) && dealt(
                        old(s)@,
                        final(s)@,
                        old(q)@,
                        final(q)@,
                        order,
                    )
                &&& hands_dealt(old(s)@, final(s)@)
            },
            Err(e) => {
                &&& e == SessionError::DeckExhausted
                &&& 7 * old(s)@.players.len() > old(s)@.deck_cards().len()
                &&& final(s)@ == old(s)@
                &&& final(q)@ == old(q)@
            },
        },
{
    let mut order = deck_handles(s);
    let ghost sorted = order@;
    shuffle_handles(&mut order);
    proof {
        lemma_permuted_deck_order(s@, sorted, order@);
    }
    let r = deal_in_order(s, q, &order);
    assert(deck_order(old(s)@, order@));
    r
}

/// Removes the deck container.
pub fn despawn_deck(s: &mut Session)
    requires
        old(s).wf(),
    ensures
        final(s).wf(),
        final(s)@ == (SessionView { has_deck: false, ..old(s)@ }),
{
    s.has_deck = false;
}

/// Removes every player.
pub fn despawn_players(s: &mut Session)
    requires
        old(s).wf(),
    ensures
        final(s).wf(),
        final(s)@ == (SessionView { players: Seq::empty(), ..old(s)@ }),
{
    s.players.clear();
    assert(s@.players =~= Seq::<u64>::empty());
}

/// Removes every card and tells all clients to clear their hands.
pub fn despawn_cards(s: &mut Session, q: &mut MessageQueue)
    requires
        old(s).wf(),
    ensures
        final(s).wf(),
        final(s)@ == (SessionView { cards: Seq::empty(), ..old(s)@ }),
        final(q)@ == old(q)@.push((None, MessageView::ClearHand)),
{
    q.send_message(None, GameMessage::ClearHand);
    s.cards.clear();
    assert(s@.cards =~= Seq::<CardEntry>::empty());
}

/// Creates the deck container.
pub fn spawn_deck(s: &mut Session)
    requires
        old(s).wf(),
    ensures
        final(s).wf(),
        final(s)@ == (SessionView { has_deck: true, ..old(s)@ }),
{
    s.has_deck = true;
}

/// Whether `id` is a registered player.
fn is_registered(players: &Vec<u64>, id: u64) -> (r: bool)
    ensures
        r == players@.contains(id),
{
    for i in 0..players.len()
        invariant
            forall|j: int| 0 <= j < i ==> players@[j] != id,
    {
        if players[i] == id {
            return true;
        }
    }
    false
}

/// Registers one player for each connected client, with the client's id,
/// skipping clients that are already registered.
pub fn spawn_players(s: &mut Session, clients: &Vec<u64>)
    requires
        old(s).wf(),
    ensures
        final(s).wf(),
        final(s)@ == (SessionView { players: register_all(old(s)@.players, clients@), ..old(s)@ }),
{
    for i in 0..clients.len()
        invariant
            s.wf(),
            s@ == (SessionView {
                players: register_all(old(s)@.players, clients@.take(i as int)),
                ..old(s)@
            }),
    {
        let id = clients[i];
        proof {
            assert(clients@.take(i + 1).drop_last() =~= clients@.take(i as int));
        }
        if !is_registered(&s.players, id) {
            s.players.push(id);
        }
    }
    assert(clients@.take(clients@.len() as int) =~= clients@);
}

/// Fills the deck with a full deck of cards. Fails, changing nothing, when
/// there is no deck.
pub fn spawn_cards(s: &mut Session) -> (r: Result<(), SessionError>)
    requires
        old(s).wf(),
    ensures
        final(s).wf(),
        r is Err ==> r == Err::<(), SessionError>(SessionError::NoDeck) && !old(s)@.has_deck
            && final(s)@ == old(s)@,
        r is Ok ==> old(s)@.has_deck && set_up(old(s)@, final(s)@, Seq::empty()),
{
    if !s.has_deck {
        return Err(SessionError::NoDeck);
    }
    let deck = build_deck();
    let ghost start = s@;
    for i in 0..deck.len()
        invariant
            deck@.len() == DECK_SIZE,
            forall|j: int| 0 <= j < deck@.len() ==> (#[trigger] deck@[j]).wf(),
            s.wf(),
            s@.state == start.state,
            s@.players == start.players,
            s@.has_deck,
            s@.cards.len() == start.cards.len() + i,
            forall|j: int| 0 <= j < start.cards.len() ==> #[trigger] s@.cards[j] == start.cards[j],
            forall|j: int|
                start.cards.len() <= j < s@.cards.len() ==> (#[trigger] s@.cards[j]).place
                    == Place::Deck,
            s@.deck_cards() == start.deck_cards().add(deck@.take(i as int).to_multiset()),
            s@.held_cards() == start.held_cards(),
    {
        let e = CardEntry { card: deck[i], place: Place::Deck };
        proof {
            lemma_matching_push(s@.cards, e, PlaceFilter::Deck);
            lemma_matching_push(s@.cards, e, PlaceFilter::AnyHand);
            assert(deck@.take(i + 1) =~= deck@.take(i as int).push(deck@[i as int]));
            assert(start.deck_cards().add(deck@.take(i + 1).to_multiset()) =~= start.deck_cards().add(
                deck@.take(i as int).to_multiset(),
            ).add(selected(e, PlaceFilter::Deck)));
            assert(s@.held_cards().add(selected(e, PlaceFilter::AnyHand)) =~= s@.held_cards());
        }
        s.cards.push(e);
    }
    proof {
        assert(deck@.take(deck@.len() as int) =~= deck@);
        assert(s@.players =~= register_all(start.players, Seq::empty()));
        assert(deck@.to_multiset().len() == DECK_SIZE);
    }
    Ok(())
}

/// Asks to start the game once at least one client is connected; says
/// whether it did.
pub fn wait_for_players(s: &mut Session, clients: &Vec<u64>) -> (ready: bool)
    requires
        old(s).wf(),
    ensures
        final(s).wf(),
        ready == (clients@.len() > 0),
        ready ==> final(s)@ == (SessionView {
            state: spec_next_phase(old(s)@.state, PhaseEvent::EnoughPlayers),
            ..old(s)@
        }),
        !ready ==> final(s)@ == old(s)@,
{
    if clients.len() > 0 {
        s.state = next_phase(s.state, PhaseEvent::EnoughPlayers);
        true
    } else {
        false
    }
}

/// Entry actions of `AwaitingStart`: removes the deck, the players and all
/// cards, and tells all clients to clear their hands.
pub fn enter_awaiting_start(s: &mut Session, q: &mut MessageQueue)
    requires
        old(s).wf(),
    ensures
        final(s).wf(),
        reset_from(old(s)@, final(s)@, old(q)@, final(q)@),
{
    despawn_deck(s);
    despawn_players(s);
    despawn_cards(s, q);
    s.state = next_phase(s.state, PhaseEvent::Reset);
}

/// Whether a deal took place does not depend on the phase of either session.
proof fn lemma_dealt_ignores_state(
    a: SessionView,
    a2: SessionView,
    b: SessionView,
    b2: SessionView,
    q0: Seq<(Option<u64>, MessageView)>,
    q1: Seq<(Option<u64>, MessageView)>,
    order: Seq<usize>,
)
    requires
        dealt(a, b, q0, q1, order),
        a2 == (SessionView { state: a2.state, ..a }),
        b2 == (SessionView { state: b2.state, ..b }),
    ensures
        dealt(a2, b2, q0, q1, order),
{
    assert forall|pi: int, k: int| 0 <= pi && 0 <= k < 7 implies #[trigger] deal_message(
        a2,
        order,
        pi,
        k,
    ) == deal_message(a, order, pi, k) by {}
}

/// Entry actions of `Dealing`: shuffles and deals, then moves on to
/// `Playing`. A deck too small for a full deal is fatal to the session,
/// which is reset.
pub fn enter_dealing(s: &mut Session, q: &mut MessageQueue)
    requires
        old(s).wf(),
    ensures
        final(s).wf(),
        dealing_outcome(old(s)@, final(s)@, old(q)@, final(q)@),
{
    s.state = GameState::Dealing;
    let ghost dealing = s@;
    match deal_cards(s, q) {
        Ok(()) => {
            let ghost after = s@;
            s.state = next_phase(s.state, PhaseEvent::CardsDealt);
            proof {
                let order = choose|order: Seq<usize>|
                    #[trigger] deck_order(dealing, order) && dealt(
                        dealing,
                        after,
                        old(q)@,
                        q@,
                        order,
                    );
                assert(deck_order(old(s)@, order));
                lemma_dealt_ignores_state(dealing, old(s)@, after, s@, old(q)@, q@, order);
                assert(old(s)@.deck_cards() == dealing.deck_cards());
                assert(s@.deck_cards() == after.deck_cards());
                assert(s@.held_cards() == after.held_cards());
                assert(old(s)@.held_cards() == dealing.held_cards());
                assert forall|pi: int| 0 <= pi < old(s)@.players.len() implies (#[trigger] s@.hand(
                    old(s)@.players[pi],
                )).len() == old(s)@.hand(old(s)@.players[pi]).len() + 7 by {
                    assert(after.hand(dealing.players[pi]).len() == dealing.hand(
                        dealing.players[pi],
                    ).len() + 7);
                }
            }
        },
        Err(_) => {
            enter_awaiting_start(s, q);
        },
    }
}

/// Entry actions of `Starting`: registers a player for each connected
/// client, creates the deck and fills it, then moves on to `Dealing`.
pub fn enter_starting(s: &mut Session, q: &mut MessageQueue, clients: &Vec<u64>)
    requires
        old(s).wf(),
    ensures
        final(s).wf(),
        exists|mid: SessionView|
            #[trigger] set_up(old(s)@, mid, clients@) && mid.wf() && dealing_outcome(
                mid,
                final(s)@,
                old(q)@,
                final(q)@,
            ),
{
    s.state = GameState::Starting;
    spawn_players(s, clients);
    spawn_deck(s);
    let ghost with_deck = s@;
    match spawn_cards(s) {
        Ok(()) => {},
        // The deck was created just above, so this cannot happen.
        Err(_) => return,
    }
    let ghost mid = s@;
    proof {
        assert(register_all(with_deck.players, Seq::empty()) == with_deck.players);
        assert(with_deck.deck_cards() == old(s)@.deck_cards());
        assert(with_deck.held_cards() == old(s)@.held_cards());
        assert forall|c: Card| #[trigger]
            mid.deck_cards().count(c) == old(s)@.deck_cards().count(c) + copies_in_deck(c) by {
            assert(mid.deck_cards().count(c) == with_deck.deck_cards().count(c) + copies_in_deck(c));
        }
        assert(set_up(old(s)@, mid, clients@));
    }
    s.state = next_phase(s.state, PhaseEvent::SetupDone);
    let ghost dealing = s@;
    enter_dealing(s, q);
    proof {
        assert(set_up(old(s)@, dealing, clients@));
    }
}

/// One scheduling tick of the session. While awaiting players, a session
/// with at least one connected client starts a game and runs through
/// `Starting` and `Dealing` at once. In any other case nothing changes: the
/// `Playing` phase has no turn logic yet.
pub fn update(s: &mut Session, q: &mut MessageQueue, clients: &Vec<u64>)
    requires
        old(s).wf(),
    ensures
        final(s).wf(),
        old(s)@.state == GameState::AwaitingStart && clients@.len() > 0 ==> exists|mid: SessionView|
            #[trigger] set_up(old(s)@, mid, clients@) && mid.wf() && dealing_outcome(
                mid,
                final(s)@,
                old(q)@,
                final(q)@,
            ),
        !(old(s)@.state == GameState::AwaitingStart && clients@.len() > 0) ==> final(s)@ == old(
            s,
        )@ && final(q)@ == old(q)@,
{
    if let GameState::AwaitingStart = s.state {
        if wait_for_players(s, clients) {
            let ghost waiting = s@;
            enter_starting(s, q, clients);
            proof {
                let mid = choose|mid: SessionView|
                    #[trigger] set_up(waiting, mid, clients@) && mid.wf() && dealing_outcome(
                        mid,
                        s@,
                        old(q)@,
                        q@,
                    );
                assert(set_up(old(s)@, mid, clients@));
            }
        }
    }
}

} // verus!
