use calculator::{create_full_8_deck, Calculator, Card, CardCounts, TableEVResult, EV_ONE, PROB_ONE};

fn prob(x: u64) -> f64 {
    x as f64 / PROB_ONE as f64
}

fn ev(x: i128) -> f64 {
    x as f64 / EV_ONE as f64
}

fn total_prob(r: &TableEVResult) -> f64 {
    prob(r.player_win_prob)
        + prob(r.dealer_win_prob)
        + prob(r.push_prob)
        + prob(r.player_blackjack_prob)
        + prob(r.dealer_blackjack_prob)
        + prob(r.surrender_prob)
}

fn create_high_card_rich_deck() -> CardCounts {
    let mut deck = CardCounts::new();
    deck.insert(Card::Face, 80);
    deck.insert(Card::Number(10), 40);
    deck.insert(Card::Ace, 30);
    deck.insert(Card::Number(7), 10);
    deck.insert(Card::Number(8), 10);
    deck.insert(Card::Number(9), 10);
    for n in 2..=6 {
        deck.insert(Card::Number(n), 5);
    }
    deck
}

fn create_ace_rich_deck() -> CardCounts {
    let mut deck = CardCounts::new();
    deck.insert(Card::Ace, 50);
    deck.insert(Card::Face, 60);
    deck.insert(Card::Number(10), 30);
    deck.insert(Card::Number(7), 15);
    deck.insert(Card::Number(8), 15);
    deck.insert(Card::Number(9), 15);
    for n in 2..=6 {
        deck.insert(Card::Number(n), 8);
    }
    deck
}

fn create_low_card_poor_deck() -> CardCounts {
    let mut deck = CardCounts::new();
    deck.insert(Card::Face, 40);
    deck.insert(Card::Number(10), 20);
    deck.insert(Card::Ace, 20);
    deck.insert(Card::Number(7), 20);
    deck.insert(Card::Number(8), 20);
    deck.insert(Card::Number(9), 20);
    for n in 2..=6 {
        deck.insert(Card::Number(n), 2);
    }
    deck
}

fn create_extremely_favorable_deck() -> CardCounts {
    let mut deck = CardCounts::new();
    deck.insert(Card::Face, 100);
    deck.insert(Card::Number(10), 50);
    deck.insert(Card::Ace, 40);
    deck.insert(Card::Number(7), 20);
    deck.insert(Card::Number(8), 20);
    deck.insert(Card::Number(9), 20);
    for n in 2..=6 {
        deck.insert(Card::Number(n), 1);
    }
    deck
}

fn create_only_high_and_ace_deck() -> CardCounts {
    let mut deck = CardCounts::new();
    deck.insert(Card::Ace, 30);
    deck.insert(Card::Face, 50);
    deck.insert(Card::Number(10), 30);
    deck
}

#[test]
fn test_high_card_rich_deck() {
    let deck = create_high_card_rich_deck();
    let calculator = Calculator::with_default_rules();
    let result = calculator.calculate_table_ev(&deck);
    println!("high-card-rich EV: {:.6}", ev(result.ev));
    assert!(prob(result.player_blackjack_prob) > 0.03, "more high cards should give more naturals");
    let total = total_prob(&result);
    assert!((total - 1.0).abs() < 0.01, "probabilities should sum to about 1, got {}", total);
    let full_result = calculator.calculate_table_ev(&create_full_8_deck());
    println!("full 8-deck EV: {:.6}", ev(full_result.ev));
    assert!(
        result.ev > full_result.ev,
        "high-card-rich EV {} should beat the full shoe's {}",
        ev(result.ev),
        ev(full_result.ev)
    );
}

#[test]
fn test_ace_rich_deck() {
    let deck = create_ace_rich_deck();
    let calculator = Calculator::with_default_rules();
    let result = calculator.calculate_table_ev(&deck);
    assert!(prob(result.player_blackjack_prob) > 0.03, "more aces should give more naturals");
    let total = total_prob(&result);
    assert!((total - 1.0).abs() < 0.01, "probabilities should sum to about 1, got {}", total);
    let full_result = calculator.calculate_table_ev(&create_full_8_deck());
    assert!(
        result.ev > full_result.ev,
        "ace-rich EV {} should beat the full shoe's {}",
        ev(result.ev),
        ev(full_result.ev)
    );
}

#[test]
fn test_low_card_poor_deck() {
    let deck = create_low_card_poor_deck();
    let calculator = Calculator::with_default_rules();
    let result = calculator.calculate_table_ev(&deck);
    assert!(
        result.player_win_prob > result.dealer_win_prob,
        "with few low cards the player should win more often than the dealer"
    );
    let total = total_prob(&result);
    assert!((total - 1.0).abs() < 0.01, "probabilities should sum to about 1, got {}", total);
    let full_result = calculator.calculate_table_ev(&create_full_8_deck());
    assert!(
        result.ev > full_result.ev,
        "low-card-poor EV {} should beat the full shoe's {}",
        ev(result.ev),
        ev(full_result.ev)
    );
}

#[test]
fn test_extremely_favorable_deck() {
    let deck = create_extremely_favorable_deck();
    let calculator = Calculator::with_default_rules();
    let result = calculator.calculate_table_ev(&deck);
    let total = total_prob(&result);
    assert!((total - 1.0).abs() < 0.01, "probabilities should sum to about 1, got {}", total);
    let full_result = calculator.calculate_table_ev(&create_full_8_deck());
    assert!(
        result.ev > full_result.ev,
        "extremely favourable EV {} should beat the full shoe's {}",
        ev(result.ev),
        ev(full_result.ev)
    );
    assert!(
        result.player_win_prob > result.dealer_win_prob,
        "the player should win more often than the dealer"
    );
}

#[test]
fn test_only_high_and_ace_deck() {
    let deck = create_only_high_and_ace_deck();
    let calculator = Calculator::with_default_rules();
    let result = calculator.calculate_table_ev(&deck);
    assert!(
        prob(result.player_blackjack_prob) > 0.05,
        "player naturals should be frequent, got {}",
        prob(result.player_blackjack_prob)
    );
    assert!(
        prob(result.dealer_blackjack_prob) > 0.05,
        "dealer naturals should be frequent, got {}",
        prob(result.dealer_blackjack_prob)
    );
    let total = total_prob(&result);
    assert!((total - 1.0).abs() < 0.01, "probabilities should sum to about 1, got {}", total);
}

#[test]
fn test_balanced_favorable_deck() {
    let mut deck = CardCounts::new();
    deck.insert(Card::Ace, 35);
    deck.insert(Card::Face, 50);
    deck.insert(Card::Number(10), 35);
    deck.insert(Card::Number(9), 25);
    deck.insert(Card::Number(8), 25);
    deck.insert(Card::Number(7), 25);
    for n in 2..=6 {
        deck.insert(Card::Number(n), 15);
    }
    let calculator = Calculator::with_default_rules();
    let result = calculator.calculate_table_ev(&deck);
    let total = total_prob(&result);
    assert!((total - 1.0).abs() < 0.01, "probabilities should sum to about 1, got {}", total);
    let full_result = calculator.calculate_table_ev(&create_full_8_deck());
    assert!(
        result.ev > full_result.ev,
        "balanced favourable EV {} should beat the full shoe's {}",
        ev(result.ev),
        ev(full_result.ev)
    );
}
