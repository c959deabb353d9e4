use runo::cards::{build_deck, Card, Color, DECK_SIZE};

fn count(deck: &[Card], card: Card) -> usize {
    deck.iter().filter(|c| **c == card).count()
}

const COLORS: [Color; 4] = [Color::Red, Color::Yellow, Color::Green, Color::Blue];

#[test]
fn deck_has_standard_composition() {
    let deck = build_deck();
    assert_eq!(deck.len(), 108);
    assert_eq!(DECK_SIZE, 108);
    for color in COLORS {
        assert_eq!(count(&deck, Card::Number(color, 0)), 1);
        for rank in 1..=9u8 {
            assert_eq!(count(&deck, Card::Number(color, rank)), 2);
        }
        assert_eq!(count(&deck, Card::Skip(color)), 2);
        assert_eq!(count(&deck, Card::DrawTwo(color)), 2);
        assert_eq!(count(&deck, Card::Reverse(color)), 2);
    }
    assert_eq!(count(&deck, Card::Wild), 4);
    assert_eq!(count(&deck, Card::WildDrawFour), 4);
}

#[test]
fn deck_category_totals() {
    let deck = build_deck();
    let zeros = deck.iter().filter(|c| c.rank() == Some(0)).count();
    let numbers = deck.iter().filter(|c| matches!(c.rank(), Some(r) if r >= 1)).count();
    let skips = deck.iter().filter(|c| c.skip().is_some()).count();
    let draw_twos = deck.iter().filter(|c| c.draw() == Some(2)).count();
    let reverses = deck.iter().filter(|c| c.is_reverse()).count();
    let wild_draw_fours = deck.iter().filter(|c| c.draw() == Some(4)).count();
    let plain_wilds = deck.iter().filter(|c| c.is_wild() && c.draw().is_none()).count();
    assert_eq!(numbers, 72);
    assert_eq!(zeros, 4);
    assert_eq!(skips, 8);
    assert_eq!(draw_twos, 8);
    assert_eq!(reverses, 8);
    assert_eq!(plain_wilds, 4);
    assert_eq!(wild_draw_fours, 4);
    assert_eq!(numbers + zeros + skips + draw_twos + reverses + plain_wilds + wild_draw_fours, 108);
}

#[test]
fn deck_is_the_same_on_every_call() {
    let mut a: Vec<String> = build_deck().iter().map(|c| c.name()).collect();
    let mut b: Vec<String> = build_deck().iter().map(|c| c.name()).collect();
    a.sort();
    b.sort();
    assert_eq!(a, b);
}

#[test]
fn card_names() {
    assert_eq!(Card::Number(Color::Red, 5).name(), "Red 5");
    assert_eq!(Card::Number(Color::Blue, 0).name(), "Blue 0");
    assert_eq!(Card::Number(Color::Yellow, 9).name(), "Yellow 9");
    assert_eq!(Card::Skip(Color::Green).name(), "Green Skip");
    assert_eq!(Card::DrawTwo(Color::Yellow).name(), "Yellow Draw 2");
    assert_eq!(Card::Reverse(Color::Red).name(), "Red Reverse");
    assert_eq!(Card::Wild.name(), "Wild");
    assert_eq!(Card::WildDrawFour.name(), "Wild Draw 4");
}

#[test]
fn card_attributes() {
    let five = Card::Number(Color::Green, 5);
    assert_eq!(five.color(), Some(Color::Green));
    assert_eq!(five.rank(), Some(5));
    assert!(!five.delay_draw());
    assert!(!five.is_wild());

    let skip = Card::Skip(Color::Red);
    assert_eq!(skip.skip(), Some(1));
    assert_eq!(skip.rank(), None);
    assert!(skip.delay_draw());

    let draw_two = Card::DrawTwo(Color::Blue);
    assert_eq!(draw_two.draw(), Some(2));
    assert_eq!(draw_two.color(), Some(Color::Blue));

    assert!(Card::Reverse(Color::Yellow).is_reverse());
    assert!(Card::Reverse(Color::Yellow).delay_draw());

    assert_eq!(Card::Wild.color(), None);
    assert!(Card::Wild.is_wild());
    assert_eq!(Card::Wild.draw(), None);
    assert!(Card::WildDrawFour.is_wild());
    assert_eq!(Card::WildDrawFour.draw(), Some(4));
    assert!(Card::WildDrawFour.delay_draw());
}

#[test]
fn every_deck_card_has_a_distinct_category_name() {
    let deck = build_deck();
    let mut names: Vec<String> = deck.iter().map(|c| c.name()).collect();
    names.sort();
    names.dedup();
    // 4 colors x (10 ranks + 3 actions) + 2 wild kinds
    assert_eq!(names.len(), 54);
}
