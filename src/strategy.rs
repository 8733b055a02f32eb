//! The basic strategy table: the player's action for each hand against each
//! dealer up-card.
use crate::types::{card_points, hand_is_soft, hand_value, scorable, Action, Card, Hand};
use vstd::prelude::*;

verus! {

/// The multi-deck chart for the first two cards: the action for a hand
/// totalling `total` (soft or hard) against a dealer up-card worth `up` (an
/// ace is 11), for totals hard 4..=21 and soft 12..=21.
pub open spec fn chart_action(total: int, soft: bool, up: int) -> Action {
    if !soft {
        if total <= 8 {
            Action::Hit
        } else if total == 9 {
            if 3 <= up <= 6 { Action::Double } else { Action::Hit }
        } else if total == 10 {
            if up <= 9 { Action::Double } else { Action::Hit }
        } else if total == 11 {
            if up <= 10 { Action::Double } else { Action::Hit }
        } else if total == 12 {
            if 4 <= up <= 6 { Action::Stand } else { Action::Hit }
        } else if total <= 16 {
            if up <= 6 { Action::Stand } else { Action::Hit }
        } else {
            Action::Stand
        }
    } else {
        if total == 12 {
            Action::Hit
        } else if total == 13 || total == 14 {
            if 5 <= up <= 6 { Action::Double } else { Action::Hit }
        } else if total == 15 || total == 16 {
            if 4 <= up <= 6 { Action::Double } else { Action::Hit }
        } else if total == 17 {
            if 3 <= up <= 6 { Action::Double } else { Action::Hit }
        } else if total == 18 {
            if 3 <= up <= 6 {
                Action::Double
            } else if up == 9 || up == 10 {
                Action::Hit
            } else {
                Action::Stand
            }
        } else {
            Action::Stand
        }
    }
}

/// The hit/stand/double entry for a hand of `count` cards totalling `total`
/// (soft or hard) against a dealer up-card worth `up`: the chart, where a
/// double is not open after two cards standing on soft 18 and hitting
/// elsewhere. Hands of more than ten cards, up-cards outside 2..=11 and
/// totals outside hard 4..=21 and soft 12..=21 have no entry.
pub open spec fn table_action(total: int, soft: bool, count: int, up: int) -> Option<Action> {
    if count < 2 || count > 10 || up < 2 || up > 11 {
        None
    } else if (!soft && !(4 <= total <= 21)) || (soft && !(12 <= total <= 21)) {
        None
    } else if count > 2 && chart_action(total, soft, up) == Action::Double {
        Some(if soft && total == 18 { Action::Stand } else { Action::Hit })
    } else {
        Some(chart_action(total, soft, up))
    }
}

/// Whether a pair of cards worth `pair` points each is split against `up`.
pub open spec fn split_entry(pair: int, up: int) -> bool {
    if up < 2 || up > 11 {
        false
    } else if pair == 1 || pair == 8 {
        true
    } else if pair == 2 || pair == 3 || pair == 7 {
        up <= 7
    } else if pair == 6 {
        up <= 6
    } else if pair == 9 {
        up <= 6 || up == 8 || up == 9
    } else {
        false
    }
}

/// Late surrender: hard 15 against a ten, hard 16 against a nine, a ten or an ace.
pub open spec fn surrender_entry(total: int, soft: bool, up: int) -> bool {
    !soft && ((total == 15 && up == 10) || (total == 16 && 9 <= up <= 11))
}

/// The lookup without splitting or surrender: the table entry, Stand where
/// there is none.
pub open spec fn restricted_action(total: int, soft: bool, count: int, up: int) -> Action {
    match table_action(total, soft, count, up) {
        Some(a) => a,
        None => Action::Stand,
    }
}

/// The full lookup: a listed pair splits, then a listed two-card hand
/// surrenders, then the table. `pair` is the points of each card of a pair,
/// 0 when the hand is no pair.
pub open spec fn full_action(total: int, soft: bool, count: int, pair: int, up: int) -> Action {
    if count == 2 && pair != 0 && split_entry(pair, up) {
        Action::Split
    } else if count == 2 && surrender_entry(total, soft, up) {
        Action::Surrender
    } else {
        restricted_action(total, soft, count, up)
    }
}

/// Strategy value of a dealer up-card: an ace counts 11.
pub open spec fn up_card_value(c: Card) -> int {
    match c {
        Card::Ace => 11,
        Card::Number(n) => n as int,
        Card::Face => 10,
    }
}

/// Points of each card when the hand is a pair, else 0.
pub open spec fn pair_points(cards: Seq<crate::types::PlayingCard>) -> int {
    if cards.len() == 2 && card_points(cards[0].card) == card_points(cards[1].card) {
        card_points(cards[0].card)
    } else {
        0
    }
}

/// The basic strategy.
pub struct BasicStrategy {}

impl BasicStrategy {
    pub fn new() -> (s: Self) {
        BasicStrategy {}
    }

    /// The full lookup for a hand against a dealer up-card.
    pub fn get_action(&self, player_hand: &Hand, dealer_up_card: Card) -> (a: Action)
        requires
            scorable(player_hand.cards@),
        ensures
            a == full_action(
                hand_value(player_hand.cards@),
                hand_is_soft(player_hand.cards@),
                player_hand.cards@.len() as int,
                pair_points(player_hand.cards@),
                up_card_value(dealer_up_card),
            ),
    {
        let value = player_hand.value();
        let soft = player_hand.is_soft();
        let count = player_hand.card_count();
        let up = Self::card_to_value(dealer_up_card);
        let pair = if player_hand.can_split() {
            card_points_of(player_hand.cards[0].card)
        } else {
            0
        };
        self.action_for(value, soft, count, pair, up)
    }

    /// The lookup without splitting or surrender, for when either is not open.
    pub fn get_action_without_split_surrender(&self, player_hand: &Hand, dealer_up_card: Card) -> (a:
        Action)
        requires
            scorable(player_hand.cards@),
        ensures
            a == restricted_action(
                hand_value(player_hand.cards@),
                hand_is_soft(player_hand.cards@),
                player_hand.cards@.len() as int,
                up_card_value(dealer_up_card),
            ),
    {
        let value = player_hand.value();
        let soft = player_hand.is_soft();
        let count = player_hand.card_count();
        let up = Self::card_to_value(dealer_up_card);
        self.restricted_for(value, soft, count, up)
    }

    /// The full lookup on a hand's summary.
    pub fn action_for(&self, total: u8, soft: bool, count: usize, pair: u8, up: u8) -> (a: Action)
        ensures
            a == full_action(total as int, soft, count as int, pair as int, up as int),
    {
        if count == 2 && pair != 0 && split_listed(pair, up) {
            return Action::Split;
        }
        if count == 2 && surrender_listed(total, soft, up) {
            return Action::Surrender;
        }
        self.restricted_for(total, soft, count, up)
    }

    /// The lookup without splitting or surrender on a hand's summary.
    pub fn restricted_for(&self, total: u8, soft: bool, count: usize, up: u8) -> (a: Action)
        ensures
            a == restricted_action(total as int, soft, count as int, up as int),
    {
        if count == 2 {
            if let Some(Action::Double) = table_entry(total, soft, 2, up) {
                return Action::Double;
            }
        }
        match table_entry(total, soft, count, up) {
            Some(a) => a,
            None => Action::Stand,
        }
    }

    /// Strategy value of a dealer up-card: an ace counts 11.
    fn card_to_value(card: Card) -> (v: u8)
        ensures
            v == up_card_value(card),
    {
        match card {
            Card::Ace => 11,
            Card::Number(n) => n,
            Card::Face => 10,
        }
    }
}

impl Default for BasicStrategy {
    fn default() -> (s: Self) {
        Self::new()
    }
}

fn card_points_of(card: Card) -> (v: u8)
    ensures
        v == card_points(card),
{
    match card {
        Card::Ace => 1,
        Card::Number(n) => n,
        Card::Face => 10,
    }
}

/// The two-card chart.
fn chart_entry(total: u8, soft: bool, up: u8) -> (a: Action)
    ensures
        a == chart_action(total as int, soft, up as int),
{
    if !soft {
        if total <= 8 {
            Action::Hit
        } else if total == 9 {
            if 3 <= up && up <= 6 { Action::Double } else { Action::Hit }
        } else if total == 10 {
            if up <= 9 { Action::Double } else { Action::Hit }
        } else if total == 11 {
            if up <= 10 { Action::Double } else { Action::Hit }
        } else if total == 12 {
            if 4 <= up && up <= 6 { Action::Stand } else { Action::Hit }
        } else if total <= 16 {
            if up <= 6 { Action::Stand } else { Action::Hit }
        } else {
            Action::Stand
        }
    } else {
        if total == 12 {
            Action::Hit
        } else if total == 13 || total == 14 {
            if 5 <= up && up <= 6 { Action::Double } else { Action::Hit }
        } else if total == 15 || total == 16 {
            if 4 <= up && up <= 6 { Action::Double } else { Action::Hit }
        } else if total == 17 {
            if 3 <= up && up <= 6 { Action::Double } else { Action::Hit }
        } else if total == 18 {
            if 3 <= up && up <= 6 {
                Action::Double
            } else if up == 9 || up == 10 {
                Action::Hit
            } else {
                Action::Stand
            }
        } else {
            Action::Stand
        }
    }
}

/// The hit/stand/double table.
fn table_entry(total: u8, soft: bool, count: usize, up: u8) -> (a: Option<Action>)
    ensures
        a == table_action(total as int, soft, count as int, up as int),
{
    if count < 2 || count > 10 || up < 2 || up > 11 {
        return None;
    }
    if (!soft && !(4 <= total && total <= 21)) || (soft && !(12 <= total && total <= 21)) {
        return None;
    }
    let a = chart_entry(total, soft, up);
    if count > 2 && a == Action::Double {
        Some(if soft && total == 18 { Action::Stand } else { Action::Hit })
    } else {
        Some(a)
    }
}

/// The pair-splitting table.
fn split_listed(pair: u8, up: u8) -> (b: bool)
    ensures
        b == split_entry(pair as int, up as int),
{
    if up < 2 || up > 11 {
        false
    } else if pair == 1 || pair == 8 {
        true
    } else if pair == 2 || pair == 3 || pair == 7 {
        up <= 7
    } else if pair == 6 {
        up <= 6
    } else if pair == 9 {
        up <= 6 || up == 8 || up == 9
    } else {
        false
    }
}

/// The surrender table.
fn surrender_listed(total: u8, soft: bool, up: u8) -> (b: bool)
    ensures
        b == surrender_entry(total as int, soft, up as int),
{
    !soft && ((total == 15 && up == 10) || (total == 16 && 9 <= up && up <= 11))
}

} // verus!
