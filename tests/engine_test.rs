use calculator::ev_calculator::calculate_ev;
use calculator::probability_calculator::ProbabilityCalculator;
use calculator::{create_full_8_deck, Calculator, Card, CardCounts, GameRules, TableEVResult, EV_ONE, PROB_ONE};

fn prob(x: u64) -> f64 {
    x as f64 / PROB_ONE as f64
}

fn ev(x: i128) -> f64 {
    x as f64 / EV_ONE as f64
}

fn six_sum(r: &TableEVResult) -> u64 {
    r.player_win_prob
        + r.dealer_win_prob
        + r.push_prob
        + r.player_blackjack_prob
        + r.dealer_blackjack_prob
        + r.surrender_prob
}

fn same(a: &TableEVResult, b: &TableEVResult) -> bool {
    a.ev == b.ev
        && a.ev_normal == b.ev_normal
        && a.ev_double == b.ev_double
        && a.ev_surrender == b.ev_surrender
        && a.player_win_prob == b.player_win_prob
        && a.dealer_win_prob == b.dealer_win_prob
        && a.push_prob == b.push_prob
        && a.player_blackjack_prob == b.player_blackjack_prob
        && a.dealer_blackjack_prob == b.dealer_blackjack_prob
        && a.surrender_prob == b.surrender_prob
}

fn minimal_deck() -> CardCounts {
    let mut deck = CardCounts::new();
    deck.insert(Card::Ace, 1);
    deck.insert(Card::Number(10), 1);
    deck.insert(Card::Face, 1);
    deck.insert(Card::Number(9), 1);
    deck
}

#[test]
fn canonical_shoe_exact_outcome() {
    let calculator = Calculator::with_default_rules();
    let r = calculator.calculate_table_ev(&create_full_8_deck());
    assert_eq!(r.player_win_prob, 324743483189986288 + 52376973513595419);
    assert_eq!(r.dealer_win_prob, 368511197544105068 + 36329910859055471);
    assert_eq!(r.push_prob, 76162605265663049 + 6607293211949576);
    assert_eq!(r.player_blackjack_prob, 45266132052185624);
    assert_eq!(r.dealer_blackjack_prob, 45266132052185624);
    assert_eq!(r.surrender_prob, 44736272311273864);
    assert_eq!(r.ev, -11408659174583004000);
    assert_eq!(r.ev, r.ev_normal + r.ev_double + r.ev_surrender);
}

#[test]
fn canonical_shoe_scenario() {
    let r = Calculator::with_default_rules().calculate_table_ev(&create_full_8_deck());
    let total = prob(six_sum(&r));
    assert!((total - 1.0).abs() <= 1e-6, "probability sum {}", total);
    let naturals = prob(r.player_blackjack_prob) + prob(r.dealer_blackjack_prob);
    assert!((naturals - 0.095).abs() < 0.005, "naturals {}", naturals);
    assert!(prob(r.push_prob) > 0.08);
    assert!(ev(r.ev) <= -0.002);
    assert!(ev(r.ev) > -0.012);
}

#[test]
fn empty_shoe_all_zero() {
    let r = Calculator::with_default_rules().calculate_table_ev(&CardCounts::new());
    assert_eq!(r.ev, 0);
    assert_eq!(r.ev_normal, 0);
    assert_eq!(r.ev_double, 0);
    assert_eq!(r.ev_surrender, 0);
    assert_eq!(six_sum(&r), 0);
}

#[test]
fn three_cards_all_zero() {
    let mut deck = CardCounts::new();
    deck.insert(Card::Ace, 1);
    deck.insert(Card::Face, 2);
    let r = Calculator::with_default_rules().calculate_table_ev(&deck);
    assert_eq!(r.ev, 0);
    assert_eq!(six_sum(&r), 0);
}

#[test]
fn minimal_shoe_exact_outcome() {
    let r = Calculator::with_default_rules().calculate_table_ev(&minimal_deck());
    assert_eq!(r.push_prob, 333333333333333333);
    assert_eq!(r.player_blackjack_prob, 333333333333333333);
    assert_eq!(r.dealer_blackjack_prob, 333333333333333333);
    assert_eq!(r.player_win_prob, 0);
    assert_eq!(r.dealer_win_prob, 0);
    assert_eq!(r.ev, 166666666666666666500);
    assert!((prob(six_sum(&r)) - 1.0).abs() <= 1e-6);
}

#[test]
fn very_small_shoe_exact_outcome() {
    let mut deck = CardCounts::new();
    deck.insert(Card::Ace, 2);
    deck.insert(Card::Number(10), 2);
    deck.insert(Card::Number(9), 2);
    let r = Calculator::with_default_rules().calculate_table_ev(&deck);
    assert_eq!(r.player_win_prob, 166666666666666666);
    assert_eq!(r.dealer_win_prob, 166666666666666666);
    assert_eq!(r.push_prob, 222222222222222221);
    assert_eq!(r.player_blackjack_prob, 222222222222222222);
    assert_eq!(r.dealer_blackjack_prob, 222222222222222221);
    assert_eq!(r.ev, 111111111111111112000);
}

#[test]
fn exhausted_shoe_loses_mass() {
    let mut deck = CardCounts::new();
    deck.insert(Card::Number(2), 4);
    let r = Calculator::with_default_rules().calculate_table_ev(&deck);
    assert_eq!(six_sum(&r), 0);
    assert_eq!(r.ev, 0);
}

#[test]
fn single_deck_exact_ev() {
    let mut deck = CardCounts::new();
    deck.insert(Card::Ace, 4);
    for n in 2..=10 {
        deck.insert(Card::Number(n), 4);
    }
    deck.insert(Card::Face, 12);
    let r = Calculator::with_default_rules().calculate_table_ev(&deck);
    assert_eq!(r.ev, -5889379696726182000);
    assert_eq!(r.surrender_prob, 45147905315972542);
}

#[test]
fn insertion_order_does_not_matter() {
    let mut a = CardCounts::new();
    a.insert(Card::Ace, 6);
    a.insert(Card::Face, 12);
    a.insert(Card::Number(5), 7);
    a.insert(Card::Number(9), 5);
    let mut b = CardCounts::new();
    b.insert(Card::Number(9), 5);
    b.insert(Card::Number(5), 7);
    b.insert(Card::Face, 12);
    b.insert(Card::Ace, 6);
    let calculator = Calculator::with_default_rules();
    assert!(same(&calculator.calculate_table_ev(&a), &calculator.calculate_table_ev(&b)));
}

#[test]
fn tens_and_faces_share_a_bucket() {
    let mut a = CardCounts::new();
    a.insert(Card::Ace, 4);
    a.insert(Card::Number(10), 10);
    a.insert(Card::Number(6), 8);
    let mut b = CardCounts::new();
    b.insert(Card::Ace, 4);
    b.insert(Card::Face, 10);
    b.insert(Card::Number(6), 8);
    let calculator = Calculator::with_default_rules();
    assert!(same(&calculator.calculate_table_ev(&a), &calculator.calculate_table_ev(&b)));
}

#[test]
fn repeated_calls_agree() {
    let calculator = Calculator::with_default_rules();
    let deck = minimal_deck();
    let first = calculator.calculate_table_ev(&deck);
    let second = calculator.calculate_table_ev(&deck);
    assert!(same(&first, &second));
    let mut engine = ProbabilityCalculator::new(GameRules::default());
    let x = engine.calculate_table_ev(&create_full_8_deck());
    let y = engine.calculate_table_ev(&create_full_8_deck());
    assert_eq!(x.to_array(), y.to_array());
}

#[test]
fn ace_and_ten_rich_beats_canonical() {
    let mut deck = create_full_8_deck();
    deck.add(Card::Ace, 16);
    deck.add(Card::Face, 48);
    let calculator = Calculator::with_default_rules();
    let rich = calculator.calculate_table_ev(&deck);
    let base = calculator.calculate_table_ev(&create_full_8_deck());
    assert!(rich.ev > base.ev);
}

#[test]
fn low_card_rich_trails_canonical() {
    let mut deck = create_full_8_deck();
    for n in 2..=6 {
        deck.add(Card::Number(n), 32);
    }
    let calculator = Calculator::with_default_rules();
    let low = calculator.calculate_table_ev(&deck);
    let base = calculator.calculate_table_ev(&create_full_8_deck());
    assert!(low.ev < base.ev);
}

#[test]
fn no_naturals_scenario() {
    let mut deck = CardCounts::new();
    for n in 2..=9 {
        deck.insert(Card::Number(n), 30);
    }
    let calculator = Calculator::with_default_rules();
    let r = calculator.calculate_table_ev(&deck);
    assert_eq!(r.player_blackjack_prob, 0);
    assert_eq!(r.dealer_blackjack_prob, 0);
    let base = calculator.calculate_table_ev(&create_full_8_deck());
    assert!(r.ev < base.ev);
}

#[test]
fn extremely_favourable_scenario() {
    let mut deck = CardCounts::new();
    deck.insert(Card::Face, 100);
    deck.insert(Card::Number(10), 50);
    deck.insert(Card::Ace, 40);
    for n in 7..=9 {
        deck.insert(Card::Number(n), 20);
    }
    for n in 2..=6 {
        deck.insert(Card::Number(n), 1);
    }
    let calculator = Calculator::with_default_rules();
    let r = calculator.calculate_table_ev(&deck);
    let base = calculator.calculate_table_ev(&create_full_8_deck());
    assert!(r.ev > base.ev);
    assert!(r.player_win_prob > r.dealer_win_prob);
}

#[test]
fn six_to_five_scenario() {
    let mut rules = GameRules::default();
    rules.blackjack_payout = 1200;
    let worse = Calculator::new(rules).calculate_table_ev(&create_full_8_deck());
    let better = Calculator::with_default_rules().calculate_table_ev(&create_full_8_deck());
    assert!(worse.ev < better.ev);
    assert_eq!(worse.ev, -24988498790238691200);
    assert_eq!(worse.ev - better.ev, -300 * better.player_blackjack_prob as i128);
    assert!((ev(worse.ev - better.ev) + 0.013).abs() < 0.001);
    assert_eq!(worse.player_blackjack_prob, better.player_blackjack_prob);
}

#[test]
fn no_surrender_rule_on_full_shoe() {
    let mut rules = GameRules::default();
    rules.allow_surrender = false;
    let r = Calculator::new(rules).calculate_table_ev(&create_full_8_deck());
    assert_eq!(r.surrender_prob, 0);
    assert_eq!(r.ev_surrender, 0);
    assert!((prob(six_sum(&r)) - 1.0).abs() <= 1e-6);
}

#[test]
fn stands_on_soft_17_changes_result() {
    let mut rules = GameRules::default();
    rules.dealer_stands_on_soft_17 = true;
    let mut deck = CardCounts::new();
    deck.insert(Card::Ace, 8);
    deck.insert(Card::Number(6), 8);
    deck.insert(Card::Face, 16);
    let s17 = Calculator::new(rules).calculate_table_ev(&deck);
    let h17 = Calculator::with_default_rules().calculate_table_ev(&deck);
    assert!(!same(&s17, &h17));
}

#[test]
fn ev_formula_exact() {
    let mut o = calculator::GameOutcome::zero();
    o.player_win_prob = 100;
    o.dealer_win_prob = 50;
    o.push_prob = 10;
    o.player_blackjack_prob = 20;
    o.dealer_blackjack_prob = 5;
    o.player_win_prob_double = 30;
    o.dealer_win_prob_double = 15;
    o.push_prob_double = 3;
    o.surrender_prob = 8;
    let r = calculate_ev(&o, &GameRules::default());
    assert_eq!(r.ev_normal, 1000 * 100 + 1500 * 20 - 1000 * 50 - 1000 * 5);
    assert_eq!(r.ev_double, 2000 * 30 - 2000 * 15);
    assert_eq!(r.ev_surrender, -500 * 8);
    assert_eq!(r.ev, 75000 + 30000 - 4000);
    assert_eq!(r.player_win_prob, 130);
    assert_eq!(r.dealer_win_prob, 65);
    assert_eq!(r.push_prob, 13);
    assert_eq!(r.player_blackjack_prob, 20);
    assert_eq!(r.dealer_blackjack_prob, 5);
    assert_eq!(r.surrender_prob, 8);
}

#[test]
fn surrender_off_lowers_canonical_ev() {
    let mut rules = GameRules::default();
    rules.allow_surrender = false;
    let without = Calculator::new(rules).calculate_table_ev(&create_full_8_deck());
    let with = Calculator::with_default_rules().calculate_table_ev(&create_full_8_deck());
    assert!(without.ev < with.ev);
    assert!((ev(without.ev) + 0.0122458).abs() < 1e-6);
}

#[test]
fn surrender_off_unused_shoe_unchanged() {
    let mut deck = CardCounts::new();
    deck.insert(Card::Ace, 10);
    deck.insert(Card::Face, 20);
    let mut rules = GameRules::default();
    rules.allow_surrender = false;
    let without = Calculator::new(rules).calculate_table_ev(&deck);
    let with = Calculator::with_default_rules().calculate_table_ev(&deck);
    assert!(same(&without, &with));
    assert_eq!(with.surrender_prob, 0);
}

#[test]
fn probabilities_within_unit_interval() {
    let r = Calculator::with_default_rules().calculate_table_ev(&create_full_8_deck());
    for p in [
        r.player_win_prob,
        r.dealer_win_prob,
        r.push_prob,
        r.player_blackjack_prob,
        r.dealer_blackjack_prob,
        r.surrender_prob,
    ] {
        assert!(p <= PROB_ONE);
    }
    assert!(six_sum(&r) <= PROB_ONE);
    assert!(six_sum(&r) >= PROB_ONE - 11 * 416);
}

#[test]
fn no_aces_no_naturals() {
    let mut deck = CardCounts::new();
    deck.insert(Card::Face, 30);
    deck.insert(Card::Number(10), 10);
    for n in 2..=9 {
        deck.insert(Card::Number(n), 10);
    }
    let r = Calculator::with_default_rules().calculate_table_ev(&deck);
    assert_eq!(r.player_blackjack_prob, 0);
    assert_eq!(r.dealer_blackjack_prob, 0);
}

#[test]
fn no_tens_no_naturals() {
    let mut deck = CardCounts::new();
    deck.insert(Card::Ace, 20);
    for n in 2..=9 {
        deck.insert(Card::Number(n), 10);
    }
    let r = Calculator::with_default_rules().calculate_table_ev(&deck);
    assert_eq!(r.player_blackjack_prob, 0);
    assert_eq!(r.dealer_blackjack_prob, 0);
}
