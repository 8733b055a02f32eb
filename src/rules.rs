//! Table rules and the dealer's drawing rule.
use crate::types::{hand_is_soft, hand_value, scorable, Hand};
use vstd::prelude::*;

verus! {

/// House rules of a table.
#[derive(Debug, Clone, Copy)]
pub struct GameRules {
    pub deck_count: u8,
    pub allow_surrender: bool,
    pub allow_split: bool,
    pub dealer_stands_on_soft_17: bool,
    pub allow_resplit: bool,
    pub allow_double_after_split: bool,
    /// What a natural pays per unit bet, in thousandths (1500 pays 3:2).
    pub blackjack_payout: u32,
}

impl GameRules {
    /// Eight decks, late surrender, no splitting, dealer draws on soft 17, 3:2.
    pub open spec fn spec_default() -> GameRules {
        GameRules {
            deck_count: 8,
            allow_surrender: true,
            allow_split: false,
            dealer_stands_on_soft_17: false,
            allow_resplit: false,
            allow_double_after_split: false,
            blackjack_payout: 1500,
        }
    }
}

impl Default for GameRules {
    fn default() -> (r: Self)
        ensures
            r == GameRules::spec_default(),
    {
        GameRules {
            deck_count: 8,
            allow_surrender: true,
            allow_split: false,
            dealer_stands_on_soft_17: false,
            allow_resplit: false,
            allow_double_after_split: false,
            blackjack_payout: 1500,
        }
    }
}

/// Whether a dealer holding `total` (soft or not) must draw.
pub open spec fn dealer_must_draw(total: int, soft: bool, stands_on_soft_17: bool) -> bool {
    if total > 21 {
        false
    } else if total < 17 {
        true
    } else if total > 17 {
        false
    } else {
        !stands_on_soft_17 && soft
    }
}

/// The dealer's drawing rule on a total.
pub fn must_draw(total: u8, soft: bool, stands_on_soft_17: bool) -> (b: bool)
    ensures
        b == dealer_must_draw(total as int, soft, stands_on_soft_17),
{
    if total > 21 {
        false
    } else if total < 17 {
        true
    } else if total > 17 {
        false
    } else if stands_on_soft_17 {
        false
    } else {
        soft
    }
}

/// The dealer's drawing rule.
pub struct DealerRules;

impl DealerRules {
    /// Whether the dealer must draw to `dealer_hand`.
    pub fn should_hit(dealer_hand: &Hand, stands_on_soft_17: bool) -> (b: bool)
        requires
            scorable(dealer_hand.cards@),
        ensures
            b == dealer_must_draw(
                hand_value(dealer_hand.cards@),
                hand_is_soft(dealer_hand.cards@),
                stands_on_soft_17,
            ),
    {
        let value = dealer_hand.value();
        if value > 21 {
            return false;
        }
        if value < 17 {
            return true;
        }
        if value > 17 {
            return false;
        }
        if stands_on_soft_17 {
            false
        } else {
            dealer_hand.is_soft()
        }
    }
}

} // verus!
