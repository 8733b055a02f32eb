//! Properties of the table EV that hold for every shoe and rule set.
use crate::calculator::reports_table;
use crate::model::{
    deal_never_short, lemma_deal_mass_never_short, lemma_deal_surrender_unused, never_surrenders,
    lemma_deal_surrender_gap, rank_allowed, score_add, lemma_deal_mass, lemma_deal_no_natural, lemma_deal_no_surrender, lemma_table_dist,
    lemma_vec_sum_11, table_outcome,
};
use crate::rules::GameRules;
use crate::types::{
    ace_count, bucket_of, hand_is_soft, hand_value, lemma_seq_sum_bound, lemma_vec_sum_entry,
    scorable, seq_sum, shoe_of, Card, PlayingCard, TableEVResult, PROB_ONE,
};
use vstd::prelude::*;

verus! {

/// The engine scores a hand card by card exactly as `Hand` does: adding a card
/// to a hand moves its (total, soft) score as `score_add` does on the card's
/// rank bucket.
pub proof fn law_hand_score_step(cards: Seq<PlayingCard>, c: PlayingCard)
    requires
        scorable(cards.push(c)),
    ensures
        hand_value(cards.push(c)) == score_add(hand_value(cards), hand_is_soft(cards), bucket_of(c.card)).0,
        hand_is_soft(cards.push(c)) == score_add(hand_value(cards), hand_is_soft(cards), bucket_of(c.card)).1,
        hand_value(Seq::<PlayingCard>::empty()) == 0,
        !hand_is_soft(Seq::<PlayingCard>::empty()),
{
    let p = cards.push(c);
    assert(p.drop_last() =~= cards);
    assert(p[p.len() - 1] == c);
    assert(c.card.is_valid());
    lemma_ace_count_nonneg(cards);
}

proof fn lemma_ace_count_nonneg(cards: Seq<PlayingCard>)
    ensures
        ace_count(cards) >= 0,
    decreases cards.len(),
{
    if cards.len() > 0 {
        lemma_ace_count_nonneg(cards.drop_last());
    }
}

/// Every reported probability lies between zero and one, and the six of them
/// together never exceed one.
pub proof fn law_probabilities_bounded(rules: GameRules, deck: Map<Card, u32>, r: TableEVResult)
    requires
        reports_table(r, rules, deck),
    ensures
        r.player_win_prob <= PROB_ONE,
        r.dealer_win_prob <= PROB_ONE,
        r.push_prob <= PROB_ONE,
        r.player_blackjack_prob <= PROB_ONE,
        r.dealer_blackjack_prob <= PROB_ONE,
        r.surrender_prob <= PROB_ONE,
        r.player_win_prob + r.dealer_win_prob + r.push_prob + r.player_blackjack_prob
            + r.dealer_blackjack_prob + r.surrender_prob <= PROB_ONE,
        forall|i: int|
            0 <= i < 11 ==> 0 <= #[trigger] table_outcome(rules, shoe_of(deck))[i] <= PROB_ONE,
{
    let o = table_outcome(rules, shoe_of(deck));
    lemma_table_dist(rules, shoe_of(deck));
    lemma_vec_sum_entry(o);
    lemma_vec_sum_11(o);
}

/// With at least 28 cards in the shoe no round can run out of cards, and the six
/// reported probabilities sum to one up to rounding: at most 11 units of
/// `PROB_ONE` per card in the shoe are lost, which is less than one millionth.
pub proof fn law_probabilities_sum_to_one(rules: GameRules, deck: Map<Card, u32>, r: TableEVResult)
    requires
        reports_table(r, rules, deck),
        seq_sum(shoe_of(deck)) >= 28,
    ensures
        r.player_win_prob + r.dealer_win_prob + r.push_prob + r.player_blackjack_prob
            + r.dealer_blackjack_prob + r.surrender_prob >= PROB_ONE - 11 * seq_sum(shoe_of(deck)),
        r.player_win_prob + r.dealer_win_prob + r.push_prob + r.player_blackjack_prob
            + r.dealer_blackjack_prob + r.surrender_prob >= PROB_ONE - PROB_ONE / 1_000_000,
        r.player_win_prob + r.dealer_win_prob + r.push_prob + r.player_blackjack_prob
            + r.dealer_blackjack_prob + r.surrender_prob <= PROB_ONE,
{
    let s = shoe_of(deck);
    let o = table_outcome(rules, s);
    law_probabilities_bounded(rules, deck, r);
    lemma_deal_mass(rules.dealer_stands_on_soft_17, rules.allow_surrender, Seq::<int>::empty(), s);
    lemma_vec_sum_11(o);
    lemma_seq_sum_bound(s);
}

/// On any shoe of at least four cards from which no round ever has to draw
/// from an empty shoe (whatever its size), the six reported probabilities sum
/// to one up to rounding: within one millionth, and at most 11 units of
/// `PROB_ONE` per card below it.
pub proof fn law_probabilities_sum_to_one_without_shortage(
    rules: GameRules,
    deck: Map<Card, u32>,
    r: TableEVResult,
)
    requires
        reports_table(r, rules, deck),
        seq_sum(shoe_of(deck)) >= 4,
        deal_never_short(
            rules.dealer_stands_on_soft_17,
            rules.allow_surrender,
            Seq::<int>::empty(),
            shoe_of(deck),
        ),
    ensures
        r.player_win_prob + r.dealer_win_prob + r.push_prob + r.player_blackjack_prob
            + r.dealer_blackjack_prob + r.surrender_prob >= PROB_ONE - 11 * seq_sum(shoe_of(deck)),
        r.player_win_prob + r.dealer_win_prob + r.push_prob + r.player_blackjack_prob
            + r.dealer_blackjack_prob + r.surrender_prob >= PROB_ONE - PROB_ONE / 1_000_000,
        r.player_win_prob + r.dealer_win_prob + r.push_prob + r.player_blackjack_prob
            + r.dealer_blackjack_prob + r.surrender_prob <= PROB_ONE,
{
    let s = shoe_of(deck);
    let o = table_outcome(rules, s);
    law_probabilities_bounded(rules, deck, r);
    lemma_deal_mass_never_short(rules.dealer_stands_on_soft_17, rules.allow_surrender, Seq::<int>::empty(), s);
    lemma_vec_sum_11(o);
    lemma_seq_sum_bound(s);
}

/// The result depends on the shoe only through its count in each rank bucket:
/// two shoes with the same counts, however they were filled, give identical
/// results.
pub proof fn law_same_counts_same_result(
    rules: GameRules,
    a: Map<Card, u32>,
    b: Map<Card, u32>,
    ra: TableEVResult,
    rb: TableEVResult,
)
    requires
        shoe_of(a) == shoe_of(b),
        reports_table(ra, rules, a),
        reports_table(rb, rules, b),
    ensures
        ra == rb,
{
}

/// Setting the counts of two different cards gives the same shoe in either order.
pub proof fn law_insertion_order(deck: Map<Card, u32>, c1: Card, n1: u32, c2: Card, n2: u32)
    requires
        c1 != c2,
    ensures
        deck.insert(c1, n1).insert(c2, n2) == deck.insert(c2, n2).insert(c1, n1),
{
    assert(deck.insert(c1, n1).insert(c2, n2) =~= deck.insert(c2, n2).insert(c1, n1));
}

/// A shoe without aces, or without ten-valued cards, yields no naturals at all.
pub proof fn law_no_aces_or_no_tens_no_naturals(rules: GameRules, deck: Map<Card, u32>, r: TableEVResult)
    requires
        reports_table(r, rules, deck),
        shoe_of(deck)[0] == 0 || (shoe_of(deck)[9] == 0 && shoe_of(deck)[10] == 0),
    ensures
        r.player_blackjack_prob == 0,
        r.dealer_blackjack_prob == 0,
{
    let s = shoe_of(deck);
    let no_aces = s[0] == 0;
    let s17 = rules.dealer_stands_on_soft_17;
    let sur = rules.allow_surrender;
    if seq_sum(s) >= 4 {
        let e = Seq::<int>::empty();
        assert forall|x: int| 0 <= x < 11 && !rank_allowed(no_aces, x) implies #[trigger] s[x] == 0 by {}
        lemma_deal_no_natural(s17, sur, no_aces, e, s, 3);
        lemma_deal_no_natural(s17, sur, no_aces, e, s, 4);
        lemma_deal_no_natural(s17, sur, no_aces, e, s, 8);
        lemma_deal_no_natural(s17, sur, no_aces, e, s, 9);
    }
}

/// With surrender not on offer, no round ends in surrender.
pub proof fn law_no_surrender_rule(rules: GameRules, deck: Map<Card, u32>, r: TableEVResult)
    requires
        reports_table(r, rules, deck),
        !rules.allow_surrender,
    ensures
        r.surrender_prob == 0,
{
    let s = shoe_of(deck);
    if seq_sum(s) >= 4 {
        lemma_deal_no_surrender(rules.dealer_stands_on_soft_17, Seq::<int>::empty(), s);
    }
}

/// Where no round that the shoe can deal opens with a surrender, taking
/// surrender off the table changes no probability and no EV.
pub proof fn law_unused_surrender_changes_nothing(
    offered: GameRules,
    withheld: GameRules,
    deck: Map<Card, u32>,
    ro: TableEVResult,
    rw: TableEVResult,
)
    requires
        offered.allow_surrender,
        !withheld.allow_surrender,
        offered.dealer_stands_on_soft_17 == withheld.dealer_stands_on_soft_17,
        offered.blackjack_payout == withheld.blackjack_payout,
        never_surrenders(shoe_of(deck)),
        reports_table(ro, offered, deck),
        reports_table(rw, withheld, deck),
    ensures
        ro == rw,
{
    let s = shoe_of(deck);
    if seq_sum(s) >= 4 {
        lemma_deal_surrender_unused(offered.dealer_stands_on_soft_17, Seq::<int>::empty(), s, s);
    }
}

/// On a shoe of at most 1000 cards where surrender is on offer but never
/// happens, taking surrender off the table changes no probability and no EV.
pub proof fn law_zero_surrender_changes_nothing(
    offered: GameRules,
    withheld: GameRules,
    deck: Map<Card, u32>,
    ro: TableEVResult,
    rw: TableEVResult,
)
    requires
        offered.allow_surrender,
        !withheld.allow_surrender,
        offered.dealer_stands_on_soft_17 == withheld.dealer_stands_on_soft_17,
        offered.blackjack_payout == withheld.blackjack_payout,
        seq_sum(shoe_of(deck)) <= 1000,
        reports_table(ro, offered, deck),
        reports_table(rw, withheld, deck),
        ro.surrender_prob == 0,
    ensures
        ro == rw,
{
    let s = shoe_of(deck);
    if seq_sum(s) >= 4 {
        lemma_deal_surrender_gap(offered.dealer_stands_on_soft_17, Seq::<int>::empty(), s);
    }
}

/// The payout on naturals changes no probability; where the player can get a
/// natural, a better payout strictly raises the EV.
pub proof fn law_payout_raises_ev(
    better: GameRules,
    worse: GameRules,
    deck: Map<Card, u32>,
    rb: TableEVResult,
    rw: TableEVResult,
)
    requires
        better.dealer_stands_on_soft_17 == worse.dealer_stands_on_soft_17,
        better.allow_surrender == worse.allow_surrender,
        better.blackjack_payout > worse.blackjack_payout,
        reports_table(rb, better, deck),
        reports_table(rw, worse, deck),
        rb.player_blackjack_prob > 0,
    ensures
        rb.player_win_prob == rw.player_win_prob,
        rb.dealer_win_prob == rw.dealer_win_prob,
        rb.push_prob == rw.push_prob,
        rb.player_blackjack_prob == rw.player_blackjack_prob,
        rb.dealer_blackjack_prob == rw.dealer_blackjack_prob,
        rb.surrender_prob == rw.surrender_prob,
        rb.ev > rw.ev,
{
    let o = table_outcome(better, shoe_of(deck));
    assert(o == table_outcome(worse, shoe_of(deck)));
    lemma_table_dist(better, shoe_of(deck));
    let x = o[3];
    let y = o[8];
    let pb = better.blackjack_payout as int;
    let pw = worse.blackjack_payout as int;
    assert(pb * x + 2 * (pb * y) > pw * x + 2 * (pw * y)) by (nonlinear_arith)
        requires
            pb > pw,
            x >= 0,
            y >= 0,
            x + y > 0,
    ;
}

} // verus!
