use calculator::{create_full_8_deck, Calculator, Card, CardCounts, TableEVResult, EV_ONE, PROB_ONE};

fn prob(x: u64) -> f64 {
    x as f64 / PROB_ONE as f64
}

fn ev(x: i128) -> f64 {
    x as f64 / EV_ONE as f64
}

fn total_prob(r: &TableEVResult) -> f64 {
    prob(r.player_win_prob)
        + prob(r.dealer_win_prob)
        + prob(r.push_prob)
        + prob(r.player_blackjack_prob)
        + prob(r.dealer_blackjack_prob)
        + prob(r.surrender_prob)
}

fn create_low_card_rich_deck() -> CardCounts {
    let mut deck = CardCounts::new();
    for n in 2..=6 {
        deck.insert(Card::Number(n), 30);
    }
    deck.insert(Card::Face, 20);
    deck.insert(Card::Number(10), 10);
    deck.insert(Card::Ace, 15);
    deck.insert(Card::Number(7), 15);
    deck.insert(Card::Number(8), 15);
    deck.insert(Card::Number(9), 15);
    deck
}

fn create_high_card_poor_deck() -> CardCounts {
    let mut deck = CardCounts::new();
    deck.insert(Card::Face, 15);
    deck.insert(Card::Number(10), 8);
    deck.insert(Card::Ace, 10);
    deck.insert(Card::Number(7), 25);
    deck.insert(Card::Number(8), 25);
    deck.insert(Card::Number(9), 25);
    for n in 2..=6 {
        deck.insert(Card::Number(n), 25);
    }
    deck
}

fn create_ace_poor_deck() -> CardCounts {
    let mut deck = CardCounts::new();
    deck.insert(Card::Ace, 8);
    deck.insert(Card::Face, 30);
    deck.insert(Card::Number(10), 20);
    deck.insert(Card::Number(7), 25);
    deck.insert(Card::Number(8), 25);
    deck.insert(Card::Number(9), 25);
    for n in 2..=6 {
        deck.insert(Card::Number(n), 30);
    }
    deck
}

fn create_extremely_unfavorable_deck() -> CardCounts {
    let mut deck = CardCounts::new();
    deck.insert(Card::Face, 10);
    deck.insert(Card::Number(10), 5);
    deck.insert(Card::Ace, 5);
    deck.insert(Card::Number(7), 20);
    deck.insert(Card::Number(8), 20);
    deck.insert(Card::Number(9), 20);
    for n in 2..=6 {
        deck.insert(Card::Number(n), 40);
    }
    deck
}

fn create_only_low_and_mid_deck() -> CardCounts {
    let mut deck = CardCounts::new();
    for n in 2..=9 {
        deck.insert(Card::Number(n), 30);
    }
    deck
}

#[test]
fn test_low_card_rich_deck() {
    let deck = create_low_card_rich_deck();
    let calculator = Calculator::with_default_rules();
    let result = calculator.calculate_table_ev(&deck);
    assert!(
        prob(result.player_blackjack_prob) < 0.03,
        "many low cards should give few naturals, got {}",
        prob(result.player_blackjack_prob)
    );
    let total = total_prob(&result);
    assert!((total - 1.0).abs() < 0.01, "probabilities should sum to about 1, got {}", total);
    let full_result = calculator.calculate_table_ev(&create_full_8_deck());
    assert!(
        result.ev < full_result.ev,
        "low-card-rich EV {} should trail the full shoe's {}",
        ev(result.ev),
        ev(full_result.ev)
    );
}

#[test]
fn test_high_card_poor_deck() {
    let deck = create_high_card_poor_deck();
    let calculator = Calculator::with_default_rules();
    let result = calculator.calculate_table_ev(&deck);
    assert!(
        prob(result.player_blackjack_prob) < 0.02,
        "few high cards should give few naturals, got {}",
        prob(result.player_blackjack_prob)
    );
    let total = total_prob(&result);
    assert!((total - 1.0).abs() < 0.01, "probabilities should sum to about 1, got {}", total);
    let full_result = calculator.calculate_table_ev(&create_full_8_deck());
    assert!(
        result.ev < full_result.ev,
        "high-card-poor EV {} should trail the full shoe's {}",
        ev(result.ev),
        ev(full_result.ev)
    );
}

#[test]
fn test_ace_poor_deck() {
    let deck = create_ace_poor_deck();
    let calculator = Calculator::with_default_rules();
    let result = calculator.calculate_table_ev(&deck);
    assert!(
        prob(result.player_blackjack_prob) < 0.02,
        "few aces should give few naturals, got {}",
        prob(result.player_blackjack_prob)
    );
    let total = total_prob(&result);
    assert!((total - 1.0).abs() < 0.01, "probabilities should sum to about 1, got {}", total);
    let full_result = calculator.calculate_table_ev(&create_full_8_deck());
    assert!(
        result.ev < full_result.ev,
        "ace-poor EV {} should trail the full shoe's {}",
        ev(result.ev),
        ev(full_result.ev)
    );
}

#[test]
fn test_extremely_unfavorable_deck() {
    let deck = create_extremely_unfavorable_deck();
    let calculator = Calculator::with_default_rules();
    let result = calculator.calculate_table_ev(&deck);
    let total = total_prob(&result);
    assert!((total - 1.0).abs() < 0.01, "probabilities should sum to about 1, got {}", total);
    let full_result = calculator.calculate_table_ev(&create_full_8_deck());
    assert!(
        result.ev < full_result.ev,
        "extremely unfavourable EV {} should trail the full shoe's {}",
        ev(result.ev),
        ev(full_result.ev)
    );
    assert!(
        result.dealer_win_prob > result.player_win_prob,
        "the dealer should win more often than the player"
    );
    assert!(ev(result.ev) < -0.05, "EV should be strongly negative, got {}", ev(result.ev));
}

#[test]
fn test_only_low_and_mid_deck() {
    let deck = create_only_low_and_mid_deck();
    let calculator = Calculator::with_default_rules();
    let result = calculator.calculate_table_ev(&deck);
    assert_eq!(result.player_blackjack_prob, 0, "no naturals without aces and tens");
    assert_eq!(result.dealer_blackjack_prob, 0, "no naturals without aces and tens");
    let total = total_prob(&result);
    assert!((total - 1.0).abs() < 0.01, "probabilities should sum to about 1, got {}", total);
    let full_result = calculator.calculate_table_ev(&create_full_8_deck());
    assert!(
        result.ev < full_result.ev,
        "low-and-mid EV {} should trail the full shoe's {}",
        ev(result.ev),
        ev(full_result.ev)
    );
}

#[test]
fn test_balanced_unfavorable_deck() {
    let mut deck = CardCounts::new();
    deck.insert(Card::Ace, 20);
    deck.insert(Card::Face, 30);
    deck.insert(Card::Number(10), 20);
    deck.insert(Card::Number(9), 30);
    deck.insert(Card::Number(8), 30);
    deck.insert(Card::Number(7), 30);
    for n in 2..=6 {
        deck.insert(Card::Number(n), 35);
    }
    let calculator = Calculator::with_default_rules();
    let result = calculator.calculate_table_ev(&deck);
    let total = total_prob(&result);
    assert!((total - 1.0).abs() < 0.01, "probabilities should sum to about 1, got {}", total);
    let full_result = calculator.calculate_table_ev(&create_full_8_deck());
    assert!(
        result.ev < full_result.ev,
        "balanced unfavourable EV {} should trail the full shoe's {}",
        ev(result.ev),
        ev(full_result.ev)
    );
}

#[test]
fn test_comparison_favorable_vs_unfavorable() {
    let favorable_deck = {
        let mut deck = CardCounts::new();
        deck.insert(Card::Ace, 40);
        deck.insert(Card::Face, 80);
        deck.insert(Card::Number(10), 50);
        for n in 2..=6 {
            deck.insert(Card::Number(n), 5);
        }
        deck.insert(Card::Number(7), 20);
        deck.insert(Card::Number(8), 20);
        deck.insert(Card::Number(9), 20);
        deck
    };
    let unfavorable_deck = {
        let mut deck = CardCounts::new();
        deck.insert(Card::Ace, 10);
        deck.insert(Card::Face, 15);
        deck.insert(Card::Number(10), 10);
        for n in 2..=6 {
            deck.insert(Card::Number(n), 50);
        }
        deck.insert(Card::Number(7), 30);
        deck.insert(Card::Number(8), 30);
        deck.insert(Card::Number(9), 30);
        deck
    };
    let calculator = Calculator::with_default_rules();
    let favorable_result = calculator.calculate_table_ev(&favorable_deck);
    let unfavorable_result = calculator.calculate_table_ev(&unfavorable_deck);
    assert!(
        favorable_result.ev > unfavorable_result.ev,
        "favourable EV {} should beat unfavourable EV {}",
        ev(favorable_result.ev),
        ev(unfavorable_result.ev)
    );
    assert!(
        favorable_result.player_blackjack_prob > unfavorable_result.player_blackjack_prob,
        "the favourable shoe should give more player naturals"
    );
    let favorable_net = prob(favorable_result.player_win_prob) - prob(favorable_result.dealer_win_prob);
    let unfavorable_net =
        prob(unfavorable_result.player_win_prob) - prob(unfavorable_result.dealer_win_prob);
    assert!(
        favorable_net > unfavorable_net,
        "net win rate {} should beat {}",
        favorable_net,
        unfavorable_net
    );
}
