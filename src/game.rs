use crate::cards::{card_name, copies_in_deck, Card, DECK_SIZE};
use crate::networking::MessageView;
use vstd::multiset::Multiset;
use vstd::prelude::*;

pub mod systems;

verus! {

broadcast use {
    vstd::multiset::group_multiset_axioms,
    vstd::multiset::group_multiset_properties,
    vstd::seq_lib::group_to_multiset_ensures,
};

/// Number of cards dealt to each player at the start of a game.
pub const HAND_SIZE: usize = 7;

/// The phase of a game session.
#[derive(Debug, Clone, Copy, PartialEq, Eq, Structural, Hash)]
pub enum GameState {
    AwaitingStart,
    Starting,
    Dealing,
    Playing,
}

/// What moves a session from one phase to the next.
#[derive(Debug, Clone, Copy, PartialEq, Eq, Structural)]
pub enum PhaseEvent {
    /// Enough players are connected to start.
    EnoughPlayers,
    /// Players and deck are set up.
    SetupDone,
    /// Every player holds a starting hand.
    CardsDealt,
    /// The session is abandoned and starts over.
    Reset,
}

/// The phase transition table. An event that does not apply to the current
/// phase leaves it unchanged.
pub open spec fn spec_next_phase(state: GameState, event: PhaseEvent) -> GameState {
    match (state, event) {
        (_, PhaseEvent::Reset) => GameState::AwaitingStart,
        (GameState::AwaitingStart, PhaseEvent::EnoughPlayers) => GameState::Starting,
        (GameState::Starting, PhaseEvent::SetupDone) => GameState::Dealing,
        (GameState::Dealing, PhaseEvent::CardsDealt) => GameState::Playing,
        _ => state,
    }
}

/// Looks up the phase that follows `state` on `event`.
pub fn next_phase(state: GameState, event: PhaseEvent) -> (r: GameState)
    ensures
        r == spec_next_phase(state, event),
{
    match (state, event) {
        (_, PhaseEvent::Reset) => GameState::AwaitingStart,
        (GameState::AwaitingStart, PhaseEvent::EnoughPlayers) => GameState::Starting,
        (GameState::Starting, PhaseEvent::SetupDone) => GameState::Dealing,
        (GameState::Dealing, PhaseEvent::CardsDealt) => GameState::Playing,
        _ => state,
    }
}

/// The number of players a session is set up for.
pub struct PlayerCount(pub u8);

/// Why a session step could not be carried out.
#[derive(Debug, Clone, Copy, PartialEq, Eq, Structural)]
pub enum SessionError {
    /// Cards were to be added while no deck exists.
    NoDeck,
    /// The deck holds fewer cards than a full deal needs.
    DeckExhausted,
}

/// The container that holds a card.
#[derive(Debug, Clone, Copy, PartialEq, Eq, Structural)]
pub enum Place {
    Deck,
    Hand(u64),
}

/// A card of the session together with the container that holds it. The
/// entry's index in the session is the card's handle.
#[derive(Debug, Clone, Copy, PartialEq, Eq, Structural)]
pub struct CardEntry {
    pub card: Card,
    pub place: Place,
}

/// The server-side state of one game: its phase, the registered players by
/// client id, whether the deck exists, and every card with its container.
pub struct Session {
    pub state: GameState,
    pub players: Vec<u64>,
    pub has_deck: bool,
    pub cards: Vec<CardEntry>,
}

/// The mathematical value of a `Session`.
pub struct SessionView {
    pub state: GameState,
    pub players: Seq<u64>,
    pub has_deck: bool,
    pub cards: Seq<CardEntry>,
}

impl View for Session {
    type V = SessionView;

    open spec fn view(&self) -> SessionView {
        SessionView {
            state: self.state,
            players: self.players@,
            has_deck: self.has_deck,
            cards: self.cards@,
        }
    }
}

/// Which containers a count of cards looks at.
pub enum PlaceFilter {
    Deck,
    HandOf(u64),
    AnyHand,
}

/// Whether a filter selects a container.
pub open spec fn selects(f: PlaceFilter, p: Place) -> bool {
    match f {
        PlaceFilter::Deck => p == Place::Deck,
        PlaceFilter::HandOf(id) => p == Place::Hand(id),
        PlaceFilter::AnyHand => p is Hand,
    }
}

/// The card of an entry if the filter selects its container.
pub open spec fn selected(e: CardEntry, f: PlaceFilter) -> Multiset<Card> {
    if selects(f, e.place) {
        Multiset::singleton(e.card)
    } else {
        Multiset::empty()
    }
}

/// The cards of the entries whose container the filter selects.
pub open spec fn cards_matching(s: Seq<CardEntry>, f: PlaceFilter) -> Multiset<Card>
    decreases s.len(),
{
    if s.len() == 0 {
        Multiset::empty()
    } else {
        cards_matching(s.drop_last(), f).add(selected(s.last(), f))
    }
}

impl SessionView {
    /// Players are registered once each and every card is well formed.
    pub open spec fn wf(self) -> bool {
        &&& self.players.no_duplicates()
        &&& forall|j: int| 0 <= j < self.cards.len() ==> (#[trigger] self.cards[j]).card.wf()
    }

    /// The cards in the deck.
    pub open spec fn deck_cards(self) -> Multiset<Card> {
        cards_matching(self.cards, PlaceFilter::Deck)
    }

    /// The cards in the hand of player `id`.
    pub open spec fn hand(self, id: u64) -> Multiset<Card> {
        cards_matching(self.cards, PlaceFilter::HandOf(id))
    }

    /// The cards in all hands.
    pub open spec fn held_cards(self) -> Multiset<Card> {
        cards_matching(self.cards, PlaceFilter::AnyHand)
    }

    /// Nothing is left of a game: no players, no deck, no cards.
    pub open spec fn is_cleared(self) -> bool {
        &&& self.players.len() == 0
        &&& !self.has_deck
        &&& self.cards.len() == 0
    }
}

impl Session {
    /// See `SessionView::wf`.
    pub open spec fn wf(&self) -> bool {
        self@.wf()
    }
}

/// Adding an entry adds its card to every count that selects its container.
pub proof fn lemma_matching_push(s: Seq<CardEntry>, e: CardEntry, f: PlaceFilter)
    ensures
        cards_matching(s.push(e), f) == cards_matching(s, f).add(selected(e, f)),
{
    assert(s.push(e).drop_last() =~= s);
}

/// Replacing an entry takes the old card out of every count that selects
/// its container and puts the new one in every count that selects the new
/// container.
pub proof fn lemma_matching_update(s: Seq<CardEntry>, i: int, e: CardEntry, f: PlaceFilter)
    requires
        0 <= i < s.len(),
    ensures
        cards_matching(s.update(i, e), f).add(selected(s[i], f)) == cards_matching(s, f).add(
            selected(e, f),
        ),
    decreases s.len(),
{
    let u = s.update(i, e);
    if i == s.len() - 1 {
        assert(u.drop_last() =~= s.drop_last());
        assert(cards_matching(u, f).add(selected(s[i], f)) =~= cards_matching(s, f).add(
            selected(e, f),
        ));
    } else {
        assert(u.drop_last() =~= s.drop_last().update(i, e));
        assert(u.last() == s.last());
        assert(s.drop_last()[i] == s[i]);
        lemma_matching_update(s.drop_last(), i, e, f);
        assert(cards_matching(u, f) == cards_matching(u.drop_last(), f).add(selected(u.last(), f)));
        assert(cards_matching(s, f) == cards_matching(s.drop_last(), f).add(selected(s.last(), f)));
        let b = cards_matching(u.drop_last(), f);
        let a = cards_matching(s.drop_last(), f);
        assert forall|x: Card|
            #[trigger] cards_matching(u, f).add(selected(s[i], f)).count(x) == cards_matching(
                s,
                f,
            ).add(selected(e, f)).count(x) by {
            assert(b.add(selected(s[i], f)).count(x) == a.add(selected(e, f)).count(x));
        }
        assert(cards_matching(u, f).add(selected(s[i], f)) =~= cards_matching(s, f).add(
            selected(e, f),
        ));
    }
}

/// Index in `order` of the `k`-th card dealt to the `pi`-th player: a deal
/// takes cards from the end of the order, seven per player in player order.
pub open spec fn deal_slot(order: Seq<usize>, pi: int, k: int) -> int {
    order.len() - 1 - (7 * pi + k)
}

/// Handle of the `k`-th card dealt to the `pi`-th player.
pub open spec fn dealt_handle(order: Seq<usize>, pi: int, k: int) -> int {
    order[deal_slot(order, pi, k)] as int
}

/// `order` lists the handles of the cards in the deck, each once.
pub open spec fn deck_order(s: SessionView, order: Seq<usize>) -> bool {
    &&& order.no_duplicates()
    &&& forall|t: int|
        0 <= t < order.len() ==> (#[trigger] order[t]) < s.cards.len() && s.cards[order[t] as int].place
            == Place::Deck
    &&& order.len() == s.deck_cards().len()
}

/// The message that tells the `pi`-th player of `s` about the `k`-th card
/// dealt to them.
pub open spec fn deal_message(s: SessionView, order: Seq<usize>, pi: int, k: int) -> (
    Option<u64>,
    MessageView,
) {
    (
        Some(s.players[pi]),
        MessageView::DrawCard(card_name(s.cards[dealt_handle(order, pi, k)].card)),
    )
}

/// The first `d` cards of a deal in `order` have gone from the deck of `old`
/// to the players' hands in `new`, and one `DrawCard` message for each was
/// queued after `q0` to give `q1`.
pub open spec fn dealt_prefix(
    old: SessionView,
    new: SessionView,
    q0: Seq<(Option<u64>, MessageView)>,
    q1: Seq<(Option<u64>, MessageView)>,
    order: Seq<usize>,
    d: int,
) -> bool {
    &&& new.players == old.players
    &&& new.has_deck == old.has_deck
    &&& new.cards.len() == old.cards.len()
    &&& forall|j: int| 0 <= j < old.cards.len() ==> (#[trigger] new.cards[j]).card == old.cards[j].card
    &&& forall|j: int|
        0 <= j < old.cards.len() && !order.contains(j as usize) ==> (#[trigger] new.cards[j]).place
            == old.cards[j].place
    &&& forall|t: int|
        0 <= t < order.len() - d ==> new.cards[(#[trigger] order[t]) as int].place == Place::Deck
    &&& forall|pi: int, k: int|
        0 <= pi && 0 <= k < 7 && 7 * pi + k < d ==> new.cards[#[trigger] dealt_handle(
            order,
            pi,
            k,
        )].place == Place::Hand(old.players[pi])
    &&& q1.len() == q0.len() + d
    &&& forall|i: int| 0 <= i < q0.len() ==> #[trigger] q1[i] == q0[i]
    &&& forall|pi: int, k: int|
        0 <= pi && 0 <= k < 7 && 7 * pi + k < d ==> q1[q0.len() + 7 * pi + k]
            == #[trigger] deal_message(old, order, pi, k)
}

/// A full deal in `order` took `old` to `new`: seven cards to each player.
pub open spec fn dealt(
    old: SessionView,
    new: SessionView,
    q0: Seq<(Option<u64>, MessageView)>,
    q1: Seq<(Option<u64>, MessageView)>,
    order: Seq<usize>,
) -> bool {
    dealt_prefix(old, new, q0, q1, order, (7 * old.players.len()) as int)
}

/// How many of the first `d` cards of a deal go to the `pi`-th player.
pub open spec fn dealt_to(pi: int, d: int) -> int {
    if d >= 7 * pi + 7 {
        7
    } else if d <= 7 * pi {
        0
    } else {
        d - 7 * pi
    }
}

/// What holds after the first `d` cards of a deal in `order`.
pub open spec fn deal_invariant(
    old: SessionView,
    new: SessionView,
    q0: Seq<(Option<u64>, MessageView)>,
    q1: Seq<(Option<u64>, MessageView)>,
    order: Seq<usize>,
    d: int,
) -> bool {
    &&& old.wf()
    &&& deck_order(old, order)
    &&& 7 * old.players.len() <= order.len()
    &&& 0 <= d <= 7 * old.players.len()
    &&& new.state == old.state
    &&& dealt_prefix(old, new, q0, q1, order, d)
    &&& new.wf()
    &&& forall|pi: int|
        0 <= pi < old.players.len() ==> (#[trigger] new.hand(old.players[pi])).len() == old.hand(
            old.players[pi],
        ).len() + dealt_to(pi, d)
    &&& new.deck_cards().len() + d == old.deck_cards().len()
    &&& new.deck_cards().add(new.held_cards()) == old.deck_cards().add(old.held_cards())
}

/// Dealing the next card keeps the deal invariant.
pub proof fn lemma_deal_step(
    old: SessionView,
    cur: SessionView,
    q0: Seq<(Option<u64>, MessageView)>,
    qc: Seq<(Option<u64>, MessageView)>,
    order: Seq<usize>,
    pi: int,
    k: int,
)
    requires
        deal_invariant(old, cur, q0, qc, order, 7 * pi + k),
        0 <= pi < old.players.len(),
        0 <= k < 7,
    ensures
        ({
            let h = dealt_handle(order, pi, k);
            let e = CardEntry { card: cur.cards[h].card, place: Place::Hand(old.players[pi]) };
            let next = SessionView { cards: cur.cards.update(h, e), ..cur };
            &&& 0 <= h < cur.cards.len()
            &&& cur.cards[h].card == old.cards[h].card
            &&& deal_invariant(
                old,
                next,
                q0,
                qc.push(deal_message(old, order, pi, k)),
                order,
                7 * pi + k + 1,
            )
        }),
{
    let d = 7 * pi + k;
    let slot = deal_slot(order, pi, k);
    let h = dealt_handle(order, pi, k);
    let id = old.players[pi];
    let e = CardEntry { card: cur.cards[h].card, place: Place::Hand(id) };
    let next = SessionView { cards: cur.cards.update(h, e), ..cur };
    let qn = qc.push(deal_message(old, order, pi, k));
    assert(0 <= slot < order.len() - d);
    assert(order[slot] == h);
    assert(cur.cards[h].place == Place::Deck);
    // Counts.
    let c = cur.cards[h].card;
    lemma_matching_update(cur.cards, h, e, PlaceFilter::Deck);
    lemma_matching_update(cur.cards, h, e, PlaceFilter::AnyHand);
    assert(selected(cur.cards[h], PlaceFilter::Deck) == Multiset::singleton(c));
    assert(selected(e, PlaceFilter::Deck) == Multiset::<Card>::empty());
    assert(selected(cur.cards[h], PlaceFilter::AnyHand) == Multiset::<Card>::empty());
    assert(selected(e, PlaceFilter::AnyHand) == Multiset::singleton(c));
    let empty = Multiset::<Card>::empty();
    assert(next.deck_cards().add(Multiset::singleton(c)) == cur.deck_cards().add(empty));
    assert(next.deck_cards().add(Multiset::singleton(c)).len() == next.deck_cards().len() + 1);
    assert(cur.deck_cards().add(empty).len() == cur.deck_cards().len());
    assert forall|qi: int| 0 <= qi < old.players.len() implies (#[trigger] next.hand(
        old.players[qi],
    )).len() == old.hand(old.players[qi]).len() + dealt_to(qi, d + 1) by {
        let f = PlaceFilter::HandOf(old.players[qi]);
        lemma_matching_update(cur.cards, h, e, f);
        assert(selected(cur.cards[h], f) == Multiset::<Card>::empty());
        assert(cur.hand(old.players[qi]).len() == old.hand(old.players[qi]).len() + dealt_to(
            qi,
            d,
        ));
        let m1 = cards_matching(next.cards, f);
        let m0 = cards_matching(cur.cards, f);
        assert(m1.add(empty).len() == m1.len());
        if qi != pi {
            assert(old.players[qi] != id);
            assert(selected(e, f) == empty);
            assert(m0.add(empty).len() == m0.len());
        } else {
            assert(selected(e, f) == Multiset::singleton(c));
            assert(m0.add(Multiset::singleton(c)).len() == m0.len() + 1);
        }
    }
    assert forall|x: Card| #[trigger]
        next.deck_cards().add(next.held_cards()).count(x) == cur.deck_cards().add(
            cur.held_cards(),
        ).count(x) by {
        assert(next.deck_cards().add(Multiset::singleton(c)).count(x) == cur.deck_cards().count(
            x,
        ));
        assert(next.held_cards().count(x) == cur.held_cards().add(Multiset::singleton(c)).count(
            x,
        ));
    }
    assert(next.deck_cards().add(next.held_cards()) =~= cur.deck_cards().add(cur.held_cards()));
    // Placement.
    assert forall|t: int| 0 <= t < order.len() - (d + 1) implies next.cards[(#[trigger] order[
        t
    ]) as int].place == Place::Deck by {
        assert(order[t] != order[slot]);
    }
    assert forall|qi: int, kk: int|
        0 <= qi && 0 <= kk < 7 && 7 * qi + kk < d + 1 implies next.cards[#[trigger] dealt_handle(
        order,
        qi,
        kk,
    )].place == Place::Hand(old.players[qi]) by {
        if 7 * qi + kk < d {
            assert(deal_slot(order, qi, kk) != slot);
        } else {
            assert(qi == pi && kk == k);
        }
    }
    assert forall|j: int|
        0 <= j < old.cards.len() && !order.contains(j as usize) implies (#[trigger] next.cards[
        j
    ]).place == old.cards[j].place by {
        if j == h {
            assert(order.contains(order[slot]));
        }
    }
    assert forall|qi: int, kk: int|
        0 <= qi && 0 <= kk < 7 && 7 * qi + kk < d + 1 implies qn[q0.len() + 7 * qi + kk]
        == #[trigger] deal_message(old, order, qi, kk) by {
        if 7 * qi + kk == d {
            assert(qi == pi && kk == k);
        }
    }
    assert(next.wf());
}

impl Session {
    /// A session waiting for players, with no players, deck or cards.
    pub fn new() -> (r: Session)
        ensures
            r.wf(),
            r@.state == GameState::AwaitingStart,
            r@.is_cleared(),
    {
        Session { state: GameState::AwaitingStart, players: Vec::new(), has_deck: false, cards: Vec::new() }
    }
}

impl Session {
    /// Number of cards in the deck.
    pub fn deck_size(&self) -> (n: usize)
        ensures
            n == self@.deck_cards().len(),
    {
        let mut n: usize = 0;
        for j in 0..self.cards.len()
            invariant
                n <= j,
                n == cards_matching(self.cards@.take(j as int), PlaceFilter::Deck).len(),
        {
            proof {
                assert(self.cards@.take(j + 1) =~= self.cards@.take(j as int).push(self.cards@[j as int]));
                lemma_matching_push(self.cards@.take(j as int), self.cards@[j as int], PlaceFilter::Deck);
            }
            if let Place::Deck = self.cards[j].place {
                n = n + 1;
            }
        }
        assert(self.cards@.take(self.cards@.len() as int) =~= self.cards@);
        n
    }

    /// The cards in the hand of player `id`, in handle order.
    pub fn hand(&self, id: u64) -> (h: Vec<Card>)
        ensures
            h@.to_multiset() == self@.hand(id),
    {
        let mut h: Vec<Card> = Vec::new();
        for j in 0..self.cards.len()
            invariant
                h@.to_multiset() == cards_matching(self.cards@.take(j as int), PlaceFilter::HandOf(id)),
        {
            let e = self.cards[j];
            proof {
                assert(self.cards@.take(j + 1) =~= self.cards@.take(j as int).push(e));
                lemma_matching_push(self.cards@.take(j as int), e, PlaceFilter::HandOf(id));
            }
            if let Place::Hand(owner) = e.place {
                if owner == id {
                    h.push(e.card);
                }
            }
            assert(h@.to_multiset() =~= cards_matching(self.cards@.take(j + 1), PlaceFilter::HandOf(id)));
        }
        assert(self.cards@.take(self.cards@.len() as int) =~= self.cards@);
        h
    }
}

/// The players after registering each client of `cs` in turn, skipping a
/// client that is already registered.
pub open spec fn register_all(ps: Seq<u64>, cs: Seq<u64>) -> Seq<u64>
    decreases cs.len(),
{
    if cs.len() == 0 {
        ps
    } else {
        let r = register_all(ps, cs.drop_last());
        if r.contains(cs.last()) {
            r
        } else {
            r.push(cs.last())
        }
    }
}

/// `new` is the cleared session waiting for players that `old` was reset
/// to, and a single `ClearHand` broadcast was queued after `q0` to give `q1`.
pub open spec fn reset_from(
    old: SessionView,
    new: SessionView,
    q0: Seq<(Option<u64>, MessageView)>,
    q1: Seq<(Option<u64>, MessageView)>,
) -> bool {
    &&& new.state == GameState::AwaitingStart
    &&& new.is_cleared()
    &&& q1 == q0.push((None, MessageView::ClearHand))
}

/// Resetting twice in a row leaves the same cleared session both times and
/// queues exactly one `ClearHand` broadcast per reset.
pub proof fn lemma_reset_idempotent(
    s0: SessionView,
    s1: SessionView,
    s2: SessionView,
    q0: Seq<(Option<u64>, MessageView)>,
    q1: Seq<(Option<u64>, MessageView)>,
    q2: Seq<(Option<u64>, MessageView)>,
)
    requires
        reset_from(s0, s1, q0, q1),
        reset_from(s1, s2, q1, q2),
    ensures
        s1.is_cleared(),
        s2.is_cleared(),
        s1 == s2,
        q2 == q0 + seq![(None, MessageView::ClearHand), (None, MessageView::ClearHand)],
{
    assert(s1.players =~= s2.players);
    assert(s1.cards =~= s2.cards);
    assert(q2 =~= q0 + seq![(None, MessageView::ClearHand), (None, MessageView::ClearHand)]);
}

/// `mid` is `old` after registering `clients`, creating the deck and adding
/// a full deck of cards to it.
pub open spec fn set_up(old: SessionView, mid: SessionView, clients: Seq<u64>) -> bool {
    &&& mid.players == register_all(old.players, clients)
    &&& mid.has_deck
    &&& mid.cards.len() == old.cards.len() + DECK_SIZE
    &&& forall|j: int| 0 <= j < old.cards.len() ==> #[trigger] mid.cards[j] == old.cards[j]
    &&& forall|j: int|
        old.cards.len() <= j < mid.cards.len() ==> (#[trigger] mid.cards[j]).place == Place::Deck
    &&& forall|c: Card| #[trigger]
        mid.deck_cards().count(c) == old.deck_cards().count(c) + copies_in_deck(c)
    &&& mid.deck_cards().len() == old.deck_cards().len() + DECK_SIZE
    &&& mid.held_cards() == old.held_cards()
}

} // verus!
