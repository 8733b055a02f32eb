use calculator::rules::DealerRules;
use calculator::strategy::BasicStrategy;
use calculator::types::{card_counts_to_point_counts, card_to_point, card_to_point_index, point_index_to_value};
use calculator::{Action, Card, CardCounts, GameOutcome, GameRules, Hand, PlayingCard, Suit, PROB_ONE};

fn hand(cards: &[Card]) -> Hand {
    let mut h = Hand::new();
    for c in cards {
        h.add_card(PlayingCard { card: *c, suit: Suit::Hearts });
    }
    h
}

#[test]
fn hand_values() {
    assert_eq!(hand(&[Card::Ace, Card::Ace]).value(), 12);
    assert!(hand(&[Card::Ace, Card::Ace]).is_soft());
    assert_eq!(hand(&[Card::Ace, Card::Number(6)]).value(), 17);
    assert!(hand(&[Card::Ace, Card::Number(6)]).is_soft());
    assert_eq!(hand(&[Card::Ace, Card::Number(6), Card::Face]).value(), 17);
    assert!(!hand(&[Card::Ace, Card::Number(6), Card::Face]).is_soft());
    assert_eq!(hand(&[Card::Face, Card::Number(9), Card::Number(5)]).value(), 24);
    assert!(hand(&[Card::Face, Card::Number(9), Card::Number(5)]).is_busted());
    assert!(hand(&[Card::Ace, Card::Face]).is_blackjack());
    assert!(!hand(&[Card::Ace, Card::Number(5), Card::Number(5)]).is_blackjack());
    assert_eq!(Hand::default().card_count(), 0);
}

#[test]
fn hand_capabilities() {
    assert!(hand(&[Card::Number(10), Card::Face]).can_split());
    assert!(!hand(&[Card::Number(9), Card::Face]).can_split());
    assert!(!hand(&[Card::Face, Card::Face, Card::Face]).can_split());
    assert!(hand(&[Card::Number(9), Card::Face]).can_double());
    assert!(!hand(&[Card::Number(2), Card::Number(3), Card::Number(4)]).can_double());
    let h = hand(&[Card::Number(9), Card::Face]);
    assert_eq!(h.first_card().map(|c| c.card), Some(Card::Number(9)));
    assert_eq!(h.second_card().map(|c| c.card), Some(Card::Face));
    assert!(hand(&[Card::Ace]).second_card().is_none());
    assert!(Hand::new().first_card().is_none());
}

#[test]
fn rank_buckets() {
    assert_eq!(card_to_point_index(Card::Ace), (0, true));
    assert_eq!(card_to_point_index(Card::Number(2)), (1, false));
    assert_eq!(card_to_point_index(Card::Number(10)), (9, false));
    assert_eq!(card_to_point_index(Card::Face), (10, false));
    assert_eq!(point_index_to_value(0), 1);
    assert_eq!(point_index_to_value(1), 2);
    assert_eq!(point_index_to_value(9), 10);
    assert_eq!(point_index_to_value(10), 10);
    assert_eq!(point_index_to_value(11), 0);
    assert_eq!(card_to_point(Card::Ace), 1);
    assert_eq!(card_to_point(Card::Number(7)), 7);
    assert_eq!(card_to_point(Card::Face), 10);
}

#[test]
fn card_counts_map() {
    let mut deck = CardCounts::new();
    assert_eq!(deck.get(Card::Ace), None);
    assert_eq!(deck.insert(Card::Ace, 3), None);
    assert_eq!(deck.insert(Card::Ace, 5), Some(3));
    deck.add(Card::Ace, 2);
    deck.add(Card::Number(10), 4);
    deck.insert(Card::Face, 12);
    assert_eq!(deck.get(Card::Ace), Some(7));
    assert_eq!(deck.total(), 23);
    let counts = card_counts_to_point_counts(&deck);
    assert_eq!(counts, [7, 0, 0, 0, 0, 0, 0, 0, 0, 4, 12]);
}

#[test]
fn dealer_drawing_rule() {
    let soft17 = hand(&[Card::Ace, Card::Number(6)]);
    let hard17 = hand(&[Card::Face, Card::Number(7)]);
    assert!(DealerRules::should_hit(&soft17, false));
    assert!(!DealerRules::should_hit(&soft17, true));
    assert!(!DealerRules::should_hit(&hard17, false));
    assert!(DealerRules::should_hit(&hand(&[Card::Face, Card::Number(6)]), true));
    assert!(!DealerRules::should_hit(&hand(&[Card::Face, Card::Number(8)]), false));
    assert!(!DealerRules::should_hit(&hand(&[Card::Face, Card::Number(6), Card::Face]), false));
}

#[test]
fn default_rules() {
    let r = GameRules::default();
    assert_eq!(r.deck_count, 8);
    assert!(r.allow_surrender);
    assert!(!r.allow_split);
    assert!(!r.dealer_stands_on_soft_17);
    assert_eq!(r.blackjack_payout, 1500);
}

#[test]
fn strategy_lookups() {
    let s = BasicStrategy::new();
    let eights = hand(&[Card::Number(8), Card::Number(8)]);
    assert_eq!(s.get_action(&eights, Card::Face), Action::Split);
    assert_eq!(s.get_action_without_split_surrender(&eights, Card::Face), Action::Hit);
    assert_eq!(s.get_action(&hand(&[Card::Face, Card::Number(6)]), Card::Face), Action::Surrender);
    assert_eq!(s.get_action(&hand(&[Card::Number(9), Card::Number(7)]), Card::Ace), Action::Surrender);
    assert_eq!(s.get_action(&hand(&[Card::Face, Card::Number(5)]), Card::Number(10)), Action::Surrender);
    assert_eq!(s.get_action(&hand(&[Card::Face, Card::Number(5)]), Card::Number(9)), Action::Hit);
    assert_eq!(s.get_action(&hand(&[Card::Ace, Card::Number(5)]), Card::Face), Action::Hit);
    assert_eq!(s.get_action(&hand(&[Card::Number(5), Card::Number(6)]), Card::Number(6)), Action::Double);
    assert_eq!(s.get_action(&hand(&[Card::Number(5), Card::Number(6)]), Card::Ace), Action::Hit);
    assert_eq!(s.get_action(&hand(&[Card::Ace, Card::Number(7)]), Card::Number(3)), Action::Double);
    assert_eq!(s.get_action(&hand(&[Card::Ace, Card::Number(7)]), Card::Ace), Action::Stand);
    assert_eq!(s.get_action(&hand(&[Card::Ace, Card::Number(7)]), Card::Number(9)), Action::Hit);
    assert_eq!(s.get_action(&hand(&[Card::Face, Card::Number(3)]), Card::Number(6)), Action::Stand);
    assert_eq!(
        s.get_action(&hand(&[Card::Number(5), Card::Number(5), Card::Number(3)]), Card::Number(6)),
        Action::Stand
    );
    assert_eq!(
        s.get_action(&hand(&[Card::Number(5), Card::Number(5), Card::Number(3)]), Card::Number(7)),
        Action::Hit
    );
    assert_eq!(s.get_action(&hand(&[Card::Number(4), Card::Number(5)]), Card::Number(2)), Action::Hit);
    assert_eq!(s.get_action(&hand(&[Card::Number(4), Card::Number(5)]), Card::Number(3)), Action::Double);
    assert_eq!(s.get_action(&hand(&[Card::Ace, Card::Number(7)]), Card::Number(2)), Action::Stand);
    assert_eq!(s.get_action(&hand(&[Card::Ace, Card::Number(6)]), Card::Number(7)), Action::Hit);
    assert_eq!(
        s.get_action(&hand(&[Card::Ace, Card::Number(3), Card::Number(4)]), Card::Number(9)),
        Action::Hit
    );
    assert_eq!(
        s.get_action(&hand(&[Card::Ace, Card::Number(3), Card::Number(4)]), Card::Number(4)),
        Action::Stand
    );
    assert_eq!(s.get_action(&hand(&[Card::Face, Card::Number(2)]), Card::Number(3)), Action::Hit);
    assert_eq!(s.get_action(&hand(&[Card::Face, Card::Number(7)]), Card::Ace), Action::Stand);
    assert_eq!(s.get_action(&hand(&[Card::Ace, Card::Ace]), Card::Number(9)), Action::Split);
    assert_eq!(s.get_action_without_split_surrender(&hand(&[Card::Ace, Card::Ace]), Card::Number(9)), Action::Hit);
    assert_eq!(s.get_action_without_split_surrender(&hand(&[Card::Number(2), Card::Number(2)]), Card::Number(5)), Action::Hit);
    assert_eq!(s.get_action(&hand(&[Card::Number(9), Card::Number(9)]), Card::Number(7)), Action::Stand);
    assert_eq!(s.get_action(&hand(&[Card::Number(9), Card::Number(9)]), Card::Number(8)), Action::Split);
}

#[test]
fn outcome_arithmetic() {
    let mut a = GameOutcome::zero();
    let mut b = GameOutcome::zero();
    b.player_win_prob = PROB_ONE / 2;
    b.dealer_win_prob = PROB_ONE / 4;
    b.surrender_prob = PROB_ONE / 4;
    a.add(&b, PROB_ONE / 2);
    assert_eq!(a.player_win_prob, PROB_ONE / 4);
    assert_eq!(a.dealer_win_prob, PROB_ONE / 8);
    assert_eq!(a.surrender_prob, PROB_ONE / 8);
    a.add_double(&b, PROB_ONE);
    assert_eq!(a.player_win_prob, PROB_ONE / 4);
    assert_eq!(a.player_win_prob_double, PROB_ONE / 2);
    assert_eq!(a.dealer_win_prob_double, PROB_ONE / 4);
    assert_eq!(a.surrender_prob, PROB_ONE / 8);
    let mut c = GameOutcome::zero();
    c.push_prob = 1;
    c.dealer_win_prob = 3;
    c.normalize();
    assert_eq!(c.push_prob, PROB_ONE / 4);
    assert_eq!(c.dealer_win_prob, 3 * PROB_ONE / 4);
    let mut z = GameOutcome::zero();
    z.normalize();
    assert_eq!(z.to_array(), [0; 11]);
}
