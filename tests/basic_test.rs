use calculator::{create_full_8_deck, Calculator, Card, TableEVResult, EV_ONE, PROB_ONE};

fn prob(x: u64) -> f64 {
    x as f64 / PROB_ONE as f64
}

fn ev(x: i128) -> f64 {
    x as f64 / EV_ONE as f64
}

fn total_prob(r: &TableEVResult) -> f64 {
    prob(r.player_win_prob)
        + prob(r.dealer_win_prob)
        + prob(r.push_prob)
        + prob(r.player_blackjack_prob)
        + prob(r.dealer_blackjack_prob)
        + prob(r.surrender_prob)
}

#[test]
fn test_create_full_deck() {
    let deck = create_full_8_deck();
    assert_eq!(deck.total(), 416);
    assert_eq!(deck.get(Card::Ace), Some(32));
    assert_eq!(deck.get(Card::Number(2)), Some(32));
    assert_eq!(deck.get(Card::Number(10)), Some(32));
    assert_eq!(deck.get(Card::Face), Some(96));
}

#[test]
fn test_calculator_creation() {
    let _calculator = Calculator::with_default_rules();
    assert!(true);
}

#[test]
fn test_full_8_decks_ev() {
    let deck = create_full_8_deck();
    let calculator = Calculator::with_default_rules();
    let result = calculator.calculate_table_ev(&deck);
    println!("EV: {:.6}", ev(result.ev));
    println!("player win: {:.6}", prob(result.player_win_prob));
    println!("dealer win: {:.6}", prob(result.dealer_win_prob));
    println!("push: {:.6}", prob(result.push_prob));
    println!("player blackjack: {:.6}", prob(result.player_blackjack_prob));
    println!("dealer blackjack: {:.6}", prob(result.dealer_blackjack_prob));
    println!("surrender: {:.6}", prob(result.surrender_prob));
    let total = total_prob(&result);
    assert!((total - 1.0).abs() < 0.01, "probabilities should sum to about 1, got {}", total);
    assert!(ev(result.ev) < 0.0, "a full eight-deck shoe favours the house");
    assert!(ev(result.ev) > -0.05, "EV out of range: {}", ev(result.ev));
}
