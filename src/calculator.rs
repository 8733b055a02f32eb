//! The table EV calculator: rules in, EV of a shoe out.
use crate::ev_calculator::{calculate_ev, describes};
use crate::model::table_outcome;
use crate::probability_calculator::ProbabilityCalculator;
use crate::rules::GameRules;
use crate::types::{shoe_of, Card, CardCounts, TableEVResult};
use vstd::prelude::*;

verus! {

/// The EV of shoe `deck` under `rules` is reported by `r`.
pub open spec fn reports_table(r: TableEVResult, rules: GameRules, deck: Map<Card, u32>) -> bool {
    describes(r, table_outcome(rules, shoe_of(deck)), rules.blackjack_payout as int)
}

pub struct Calculator {
    rules: GameRules,
}

impl Calculator {
    /// The rules the calculator plays by.
    pub closed spec fn game_rules(&self) -> GameRules {
        self.rules
    }

    pub fn new(rules: GameRules) -> (c: Self)
        ensures
            c.game_rules() == rules,
    {
        Self { rules }
    }

    pub fn with_default_rules() -> (c: Self)
        ensures
            c.game_rules() == GameRules::spec_default(),
    {
        Self { rules: GameRules::default() }
    }

    /// The EV of sitting down at the table with shoe `deck`, the player
    /// following basic strategy.
    pub fn calculate_table_ev(&self, deck: &CardCounts) -> (r: TableEVResult)
        ensures
            reports_table(r, self.game_rules(), deck@),
    {
        let mut calculator = ProbabilityCalculator::new(self.rules);
        let outcome = calculator.calculate_table_ev(deck);
        proof {
            crate::types::lemma_vec_sum_entry(outcome@);
            crate::model::lemma_vec_sum_11(outcome@);
        }
        calculate_ev(&outcome, &self.rules)
    }
}

impl Default for Calculator {
    fn default() -> (c: Self)
        ensures
            c.game_rules() == GameRules::spec_default(),
    {
        Self::with_default_rules()
    }
}

/// Eight full decks: 32 of each ace and number, 96 face cards.
pub open spec fn full_8_deck() -> Map<Card, u32> {
    Map::new(|c: Card| c.is_valid(), |c: Card| if c == Card::Face { 96u32 } else { 32u32 })
}

/// `k` full decks.
spec fn decks(k: int) -> Map<Card, u32> {
    Map::new(|c: Card| c.is_valid() && k > 0, |c: Card| if c == Card::Face { (12 * k) as u32 } else { (4 * k) as u32 })
}

/// The shoe of eight full decks.
pub fn create_full_8_deck() -> (deck: CardCounts)
    ensures
        deck@ == full_8_deck(),
{
    let mut deck = CardCounts::new();
    let mut k: u32 = 0;
    while k < 8
        invariant
            0 <= k <= 8,
            deck@ == decks(k as int),
        decreases 8 - k,
    {
        let ghost before = deck@;
        deck.add(Card::Ace, 4);
        let mut n: u8 = 2;
        while n <= 10
            invariant
                2 <= n <= 11,
                0 <= k < 8,
                before == decks(k as int),
                forall|c: Card|
                    c.is_valid() ==> (#[trigger] deck@.contains_key(c) == (k > 0 || c == Card::Ace
                        || (c is Number && c->Number_0 < n))),
                forall|c: Card|
                    #[trigger] deck@.contains_key(c) ==> c.is_valid() && deck@[c] == if c == Card::Face {
                        12 * k
                    } else if c == Card::Ace || (c is Number && c->Number_0 < n) {
                        4 * (k + 1)
                    } else {
                        4 * k
                    },
            decreases 11 - n,
        {
            deck.add(Card::Number(n), 4);
            n = n + 1;
        }
        deck.add(Card::Face, 12);
        k = k + 1;
        proof {
            assert(deck@ =~= decks(k as int));
        }
    }
    proof {
        assert(deck@ =~= full_8_deck());
    }
    deck
}

} // verus!
