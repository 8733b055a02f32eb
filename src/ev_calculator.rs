//! Expected value of a round from its outcome probabilities.
use crate::rules::GameRules;
use crate::types::{GameOutcome, TableEVResult};
use vstd::prelude::*;

verus! {

/// EV of the normal bet, in units of `EV_ONE`: a win pays one, a natural pays
/// `payout` thousandths, a loss or a dealer natural costs one, a push nothing.
pub open spec fn ev_normal_of(o: Seq<int>, payout: int) -> int {
    1000 * o[0] + payout * o[3] - 1000 * o[1] - 1000 * o[4]
}

/// EV of doubled bets: every result counts twice.
pub open spec fn ev_double_of(o: Seq<int>, payout: int) -> int {
    2000 * o[5] + 2 * (payout * o[8]) - 2000 * o[6] - 2000 * o[9]
}

/// EV of surrender: half the bet is lost.
pub open spec fn ev_surrender_of(o: Seq<int>) -> int {
    -500 * o[10]
}

/// Total EV.
pub open spec fn ev_of(o: Seq<int>, payout: int) -> int {
    ev_normal_of(o, payout) + ev_double_of(o, payout) + ev_surrender_of(o)
}

/// `r` reports outcome `o` under a natural paying `payout` thousandths.
pub open spec fn describes(r: TableEVResult, o: Seq<int>, payout: int) -> bool {
    &&& r.ev_normal == ev_normal_of(o, payout)
    &&& r.ev_double == ev_double_of(o, payout)
    &&& r.ev_surrender == ev_surrender_of(o)
    &&& r.ev == r.ev_normal + r.ev_double + r.ev_surrender
    &&& r.ev == ev_of(o, payout)
    &&& r.player_win_prob == o[0] + o[5]
    &&& r.dealer_win_prob == o[1] + o[6]
    &&& r.push_prob == o[2] + o[7]
    &&& r.player_blackjack_prob == o[3] + o[8]
    &&& r.dealer_blackjack_prob == o[4] + o[9]
    &&& r.surrender_prob == o[10]
}

/// Combines outcome probabilities with the payoffs into the table's EV.
pub fn calculate_ev(outcome: &GameOutcome, rules: &GameRules) -> (r: TableEVResult)
    requires
        outcome.player_win_prob + outcome.player_win_prob_double <= u64::MAX,
        outcome.dealer_win_prob + outcome.dealer_win_prob_double <= u64::MAX,
        outcome.push_prob + outcome.push_prob_double <= u64::MAX,
        outcome.player_blackjack_prob + outcome.player_blackjack_prob_double <= u64::MAX,
        outcome.dealer_blackjack_prob + outcome.dealer_blackjack_prob_double <= u64::MAX,
    ensures
        describes(r, outcome@, rules.blackjack_payout as int),
{
    let o = outcome;
    let payout = rules.blackjack_payout as i128;
    let bj = o.player_blackjack_prob as i128;
    let bj_double = o.player_blackjack_prob_double as i128;
    proof {
        assert(0 <= payout * bj <= 0xffff_ffff * 0xffff_ffff_ffff_ffff) by (nonlinear_arith)
            requires
                0 <= payout <= 0xffff_ffff,
                0 <= bj <= 0xffff_ffff_ffff_ffff,
        ;
        assert(0 <= payout * bj_double <= 0xffff_ffff * 0xffff_ffff_ffff_ffff) by (nonlinear_arith)
            requires
                0 <= payout <= 0xffff_ffff,
                0 <= bj_double <= 0xffff_ffff_ffff_ffff,
        ;
    }
    let bj_pay = payout * bj;
    let bj_double_pay = 2 * (payout * bj_double);
    let ev_normal: i128 = 1000 * o.player_win_prob as i128 + bj_pay
        - 1000 * o.dealer_win_prob as i128 - 1000 * o.dealer_blackjack_prob as i128;
    let ev_double: i128 = 2000 * o.player_win_prob_double as i128 + bj_double_pay - 2000 * o.dealer_win_prob_double as i128 - 2000
        * o.dealer_blackjack_prob_double as i128;
    let ev_surrender: i128 = 0 - 500 * (o.surrender_prob as i128);
    let ev = ev_normal + ev_double + ev_surrender;
    TableEVResult {
        ev,
        ev_normal,
        ev_double,
        ev_surrender,
        player_win_prob: o.player_win_prob + o.player_win_prob_double,
        dealer_win_prob: o.dealer_win_prob + o.dealer_win_prob_double,
        push_prob: o.push_prob + o.push_prob_double,
        player_blackjack_prob: o.player_blackjack_prob + o.player_blackjack_prob_double,
        dealer_blackjack_prob: o.dealer_blackjack_prob + o.dealer_blackjack_prob_double,
        surrender_prob: o.surrender_prob,
    }
}

} // verus!
