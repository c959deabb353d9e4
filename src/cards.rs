use vstd::prelude::*;
use vstd::string::StringExecFns;

verus! {

broadcast use vstd::seq_lib::group_to_multiset_ensures;

/// Number of cards in a freshly built deck.
pub const DECK_SIZE: usize = 108;

/// The four suit colors of the deck.
#[derive(Debug, Clone, Copy, PartialEq, Eq, Structural)]
pub enum Color {
    Red,
    Yellow,
    Green,
    Blue,
}

/// Position of a color in the order in which suits are generated.
pub open spec fn color_index(c: Color) -> nat {
    match c {
        Color::Red => 0,
        Color::Yellow => 1,
        Color::Green => 2,
        Color::Blue => 3,
    }
}

/// The English word for a color, as it appears in card names.
pub open spec fn color_word(c: Color) -> Seq<char> {
    match c {
        Color::Red => "Red"@,
        Color::Yellow => "Yellow"@,
        Color::Green => "Green"@,
        Color::Blue => "Blue"@,
    }
}

/// The color at position `i` of the suit order.
pub fn color_at(i: usize) -> (c: Color)
    requires
        i < 4,
    ensures
        color_index(c) == i,
{
    if i == 0 {
        Color::Red
    } else if i == 1 {
        Color::Yellow
    } else if i == 2 {
        Color::Green
    } else {
        Color::Blue
    }
}

/// A single card. Colored cards carry their suit; a number card carries its
/// rank, which is between 0 and 9 for every card of a deck.
#[derive(Debug, Clone, Copy, PartialEq, Eq, Structural)]
pub enum Card {
    Number(Color, u8),
    Skip(Color),
    DrawTwo(Color),
    Reverse(Color),
    Wild,
    WildDrawFour,
}

impl Card {
    /// A card is well formed when its rank, if any, is a single digit.
    pub open spec fn wf(self) -> bool {
        match self {
            Card::Number(_, r) => r <= 9,
            _ => true,
        }
    }

    /// The suit of the card; wild cards have none.
    pub open spec fn spec_color(self) -> Option<Color> {
        match self {
            Card::Number(c, _) => Some(c),
            Card::Skip(c) => Some(c),
            Card::DrawTwo(c) => Some(c),
            Card::Reverse(c) => Some(c),
            Card::Wild => None,
            Card::WildDrawFour => None,
        }
    }

    /// The rank of a number card.
    pub open spec fn spec_rank(self) -> Option<u8> {
        match self {
            Card::Number(_, r) => Some(r),
            _ => None,
        }
    }

    /// How many turns the card skips: one for a Skip card.
    pub open spec fn spec_skip(self) -> Option<u8> {
        match self {
            Card::Skip(_) => Some(1),
            _ => None,
        }
    }

    /// How many cards the card makes the next player draw: two for a Draw 2
    /// card, four for a Wild Draw 4 card.
    pub open spec fn spec_draw(self) -> Option<u8> {
        match self {
            Card::DrawTwo(_) => Some(2),
            Card::WildDrawFour => Some(4),
            _ => None,
        }
    }

    /// Whether the card's effect is applied when it is played, as it is for
    /// every card that is not a number card.
    pub open spec fn spec_delay_draw(self) -> bool {
        !(self is Number)
    }

    /// Position of the card among the cards of its suit: ranks first, then
    /// Skip, Draw 2 and Reverse.
    pub open spec fn face_index(self) -> nat {
        match self {
            Card::Number(_, r) => r as nat,
            Card::Skip(_) => 10,
            Card::DrawTwo(_) => 11,
            Card::Reverse(_) => 12,
            Card::Wild => 13,
            Card::WildDrawFour => 14,
        }
    }
}

/// How many copies of a card a standard double deck holds: one zero per
/// color, two of every other rank and of every colored action card, and four
/// of each wild card.
pub open spec fn copies_in_deck(c: Card) -> nat {
    match c {
        Card::Number(_, r) => if r == 0 {
            1
        } else if r <= 9 {
            2
        } else {
            0
        },
        Card::Skip(_) => 2,
        Card::DrawTwo(_) => 2,
        Card::Reverse(_) => 2,
        Card::Wild => 4,
        Card::WildDrawFour => 4,
    }
}

/// The decimal digit that names a rank.
pub open spec fn digit_word(d: u8) -> Seq<char> {
    if d == 0 {
        "0"@
    } else if d == 1 {
        "1"@
    } else if d == 2 {
        "2"@
    } else if d == 3 {
        "3"@
    } else if d == 4 {
        "4"@
    } else if d == 5 {
        "5"@
    } else if d == 6 {
        "6"@
    } else if d == 7 {
        "7"@
    } else if d == 8 {
        "8"@
    } else {
        "9"@
    }
}

/// The name of a card, which is also its identity on the wire: `"{Color}
/// {Rank}"`, `"{Color} Skip"`, `"{Color} Draw 2"`, `"{Color} Reverse"`,
/// `"Wild"` or `"Wild Draw 4"`.
pub open spec fn card_name(c: Card) -> Seq<char> {
    match c {
        Card::Number(col, r) => color_word(col) + " "@ + digit_word(r),
        Card::Skip(col) => color_word(col) + " Skip"@,
        Card::DrawTwo(col) => color_word(col) + " Draw 2"@,
        Card::Reverse(col) => color_word(col) + " Reverse"@,
        Card::Wild => "Wild"@,
        Card::WildDrawFour => "Wild Draw 4"@,
    }
}

/// The word for a color.
fn color_str(c: Color) -> (s: &'static str)
    ensures
        s@ == color_word(c),
{
    match c {
        Color::Red => "Red",
        Color::Yellow => "Yellow",
        Color::Green => "Green",
        Color::Blue => "Blue",
    }
}

/// The digit for a rank.
fn digit_str(d: u8) -> (s: &'static str)
    requires
        d <= 9,
    ensures
        s@ == digit_word(d),
{
    if d == 0 {
        "0"
    } else if d == 1 {
        "1"
    } else if d == 2 {
        "2"
    } else if d == 3 {
        "3"
    } else if d == 4 {
        "4"
    } else if d == 5 {
        "5"
    } else if d == 6 {
        "6"
    } else if d == 7 {
        "7"
    } else if d == 8 {
        "8"
    } else {
        "9"
    }
}

impl Card {
    /// The suit of the card; wild cards have none.
    pub fn color(&self) -> (r: Option<Color>)
        ensures
            r == self.spec_color(),
    {
        match *self {
            Card::Number(c, _) => Some(c),
            Card::Skip(c) => Some(c),
            Card::DrawTwo(c) => Some(c),
            Card::Reverse(c) => Some(c),
            Card::Wild => None,
            Card::WildDrawFour => None,
        }
    }

    /// The rank of a number card.
    pub fn rank(&self) -> (r: Option<u8>)
        ensures
            r == self.spec_rank(),
    {
        match *self {
            Card::Number(_, r) => Some(r),
            _ => None,
        }
    }

    /// How many turns the card skips.
    pub fn skip(&self) -> (r: Option<u8>)
        ensures
            r == self.spec_skip(),
    {
        match *self {
            Card::Skip(_) => Some(1),
            _ => None,
        }
    }

    /// How many cards the card makes the next player draw.
    pub fn draw(&self) -> (r: Option<u8>)
        ensures
            r == self.spec_draw(),
    {
        match *self {
            Card::DrawTwo(_) => Some(2),
            Card::WildDrawFour => Some(4),
            _ => None,
        }
    }

    /// Whether the card reverses the order of play.
    pub fn is_reverse(&self) -> (r: bool)
        ensures
            r == (*self is Reverse),
    {
        match *self {
            Card::Reverse(_) => true,
            _ => false,
        }
    }

    /// Whether the card is wild.
    pub fn is_wild(&self) -> (r: bool)
        ensures
            r == (*self is Wild || *self is WildDrawFour),
    {
        match *self {
            Card::Wild => true,
            Card::WildDrawFour => true,
            _ => false,
        }
    }

    /// Whether the card's effect is applied when it is played.
    pub fn delay_draw(&self) -> (r: bool)
        ensures
            r == self.spec_delay_draw(),
    {
        match *self {
            Card::Number(_, _) => false,
            _ => true,
        }
    }

    /// The name of the card.
    pub fn name(&self) -> (r: String)
        requires
            self.wf(),
        ensures
            r@ == card_name(*self),
    {
        match *self {
            Card::Number(c, rank) => {
                let mut s = String::from_str(color_str(c));
                s.append(" ");
                s.append(digit_str(rank));
                s
            },
            Card::Skip(c) => String::from_str(color_str(c)).concat(" Skip"),
            Card::DrawTwo(c) => String::from_str(color_str(c)).concat(" Draw 2"),
            Card::Reverse(c) => String::from_str(color_str(c)).concat(" Reverse"),
            Card::Wild => String::from_str("Wild"),
            Card::WildDrawFour => String::from_str("Wild Draw 4"),
        }
    }
}

/// The colored card at position `k` of the suit of color `c`.
fn suit_card(c: Color, k: u8) -> (r: Card)
    requires
        k < 13,
    ensures
        r.spec_color() == Some(c),
        r.face_index() == k,
        r.wf(),
{
    if k < 10 {
        Card::Number(c, k)
    } else if k == 10 {
        Card::Skip(c)
    } else if k == 11 {
        Card::DrawTwo(c)
    } else {
        Card::Reverse(c)
    }
}

/// Two well-formed colored cards of one suit with the same position are the same card.
proof fn lemma_same_face(x: Card, y: Card)
    requires
        x.wf(),
        y.wf(),
        x.spec_color() is Some,
        x.spec_color() == y.spec_color(),
        x.face_index() == y.face_index(),
    ensures
        x == y,
{
}

/// The colored cards of the first `ci` suits, and the first `k` cards of
/// suit `ci`, have been generated.
spec fn generated(x: Card, ci: nat, k: nat) -> bool {
    match x.spec_color() {
        Some(c) => color_index(c) < ci || (color_index(c) == ci && x.face_index() < k),
        None => false,
    }
}

/// Builds a fresh deck holding every card of a standard double deck, in
/// suit order followed by the wild cards.
pub fn build_deck() -> (deck: Vec<Card>)
    ensures
        deck@.len() == DECK_SIZE,
        forall|c: Card| #[trigger] deck@.to_multiset().count(c) == copies_in_deck(c),
        forall|i: int| 0 <= i < deck@.len() ==> (#[trigger] deck@[i]).wf(),
{
    let mut deck: Vec<Card> = Vec::new();
    for ci in 0..4usize
        invariant
            deck@.len() == 25 * ci,
            forall|x: Card| #[trigger]
                deck@.to_multiset().count(x) == if generated(x, ci as nat, 0) {
                    copies_in_deck(x)
                } else {
                    0
                },
            forall|i: int| 0 <= i < deck@.len() ==> (#[trigger] deck@[i]).wf(),
    {
        let color = color_at(ci);
        for k in 0..13u8
            invariant
                0 <= ci < 4,
                color_index(color) == ci,
                deck@.len() == 25 * ci + if k == 0 {
                    0
                } else {
                    2 * k - 1
                },
                forall|x: Card| #[trigger]
                    deck@.to_multiset().count(x) == if generated(x, ci as nat, k as nat) {
                        copies_in_deck(x)
                    } else {
                        0
                    },
                forall|i: int| 0 <= i < deck@.len() ==> (#[trigger] deck@[i]).wf(),
        {
            let card = suit_card(color, k);
            deck.push(card);
            if k != 0 {
                deck.push(card);
            }
            assert forall|x: Card| #[trigger]
                deck@.to_multiset().count(x) == if generated(x, ci as nat, (k + 1) as nat) {
                    copies_in_deck(x)
                } else {
                    0
                } by {
                if x.wf() && x.spec_color() == Some(color) && x.face_index() == k {
                    lemma_same_face(x, card);
                }
            }
        }
        assert forall|x: Card|
            (if generated(x, (ci + 1) as nat, 0) {
                copies_in_deck(x)
            } else {
                0
            }) == (if generated(x, ci as nat, 13) {
                copies_in_deck(x)
            } else {
                0
            }) by {}
    }
    for j in 0..4usize
        invariant
            deck@.len() == 100 + 2 * j,
            forall|x: Card| #[trigger]
                deck@.to_multiset().count(x) == if generated(x, 4, 0) {
                    copies_in_deck(x)
                } else if x == Card::Wild || x == Card::WildDrawFour {
                    j as nat
                } else {
                    0
                },
            forall|i: int| 0 <= i < deck@.len() ==> (#[trigger] deck@[i]).wf(),
    {
        deck.push(Card::Wild);
        deck.push(Card::WildDrawFour);
    }
    assert forall|x: Card| generated(x, 4, 0) || x == Card::Wild || x == Card::WildDrawFour
        || copies_in_deck(x) == 0 by {}
    deck
}

} // verus!
