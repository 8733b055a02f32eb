//! The probability engine: walks the game tree over rank draws, caching the
//! dealer's final-total distribution per dealer score and shoe.
use crate::model::{
    column, deal, deal_draws, dealer_dist, dealer_draws, dec, decide, double_draws, doubled,
    hit_draws, is_dist, lemma_deal_draws_dist, lemma_dealer_dist, lemma_dec_sum,
    lemma_dealer_draws_dist, lemma_double_draws_dist, lemma_hit_draws_dist, lemma_mix_dist, lemma_mix_step, mix, play,
    round_outcome, score_add, stand_outcome, table_outcome, unit, weighted, zeros,
};
use crate::rules::{dealer_must_draw, must_draw, GameRules};
use crate::strategy::BasicStrategy;
use crate::types::{
    card_counts_to_point_counts, lemma_vec_sum_entry, point_index_to_value, seq_sum, shoe_of,
    sum_counts, vec_sum, Action, CardCounts, GameOutcome, PointCounts, DEALER_BLACKJACK,
    DEALER_WIN, PLAYER_BLACKJACK, PROB_ONE, PUSH, SURRENDER,
};
use std::collections::HashMap;
use vstd::prelude::*;

verus! {

broadcast use vstd::std_specs::hash::group_hash_axioms;

/// Entries of a vector of `u64` as integers.
pub open spec fn ints(a: Seq<u64>) -> Seq<int> {
    a.map_values(|x: u64| x as int)
}

/// A cached dealer distribution together with the state it belongs to.
struct MemoEntry {
    total: u8,
    soft: bool,
    counts: PointCounts,
    dist: [u64; 6],
}

spec fn entry_holds(s17: bool, e: MemoEntry) -> bool {
    ints(e.dist@) == dealer_dist(s17, e.total as int, e.soft, e.counts@)
}

/// The engine. Its cache only ever holds exact dealer distributions, each
/// stored with the full state it was computed for.
pub struct ProbabilityCalculator {
    rules: GameRules,
    strategy: BasicStrategy,
    memo: HashMap<u64, MemoEntry>,
}

/// The score of a hand after a card of rank `r`.
fn add_rank(total: u8, soft: bool, r: usize) -> (n: (u8, bool))
    requires
        total <= 21,
        r < 11,
        soft ==> total >= 10,
    ensures
        n.0 as int == score_add(total as int, soft, r as int).0,
        n.1 == score_add(total as int, soft, r as int).1,
        n.1 ==> n.0 >= 10,
{
    let hard = if soft { total - 10 } else { total };
    let h = hard + point_index_to_value(r);
    if (soft || r == 0) && h + 10 <= 21 {
        (h + 10, true)
    } else {
        (h, false)
    }
}

/// The same counts, entry by entry.
fn same_counts(a: &PointCounts, b: &PointCounts) -> (r: bool)
    ensures
        r == (a@ == b@),
{
    let mut i: usize = 0;
    while i < 11
        invariant
            0 <= i <= 11,
            forall|j: int| 0 <= j < i ==> a@[j] == b@[j],
        decreases 11 - i,
    {
        if a[i] != b[i] {
            return false;
        }
        i = i + 1;
    }
    proof {
        assert(a@ =~= b@);
    }
    true
}

/// Certainty of entry `k` of an outcome.
fn certain(k: usize) -> (o: GameOutcome)
    requires
        k < 11,
    ensures
        o@ == unit(11, k as int),
{
    let mut a: [u64; 11] = [0; 11];
    a[k] = PROB_ONE;
    let o = GameOutcome::from_array(&a);
    proof {
        assert(o@ =~= unit(11, k as int));
    }
    o
}

/// `acc[i] += c * o[i]` for every entry.
fn accumulate(acc: &mut [u128; 11], o: &GameOutcome, c: u32)
    requires
        forall|i: int| 0 <= i < 11 ==> old(acc)@[i] + c * o@[i] <= u128::MAX,
    ensures
        forall|i: int| 0 <= i < 11 ==> #[trigger] final(acc)@[i] == old(acc)@[i] + c * o@[i],
{
    let b = o.to_array();
    let mut i: usize = 0;
    while i < 11
        invariant
            0 <= i <= 11,
            forall|j: int| 0 <= j < 11 ==> b@[j] == o@[j],
            forall|j: int| 0 <= j < 11 ==> old(acc)@[j] + c * o@[j] <= u128::MAX,
            forall|j: int| 0 <= j < i ==> acc@[j] == old(acc)@[j] + c * o@[j],
            forall|j: int| i <= j < 11 ==> acc@[j] == old(acc)@[j],
        decreases 11 - i,
    {
        let x = c as u128 * b[i] as u128;
        acc[i] = acc[i] + x;
        i = i + 1;
    }
}

/// `acc[i] += c * d[i]` for every entry of a dealer distribution.
fn accumulate_dealer(acc: &mut [u128; 6], d: &[u64; 6], c: u32)
    requires
        forall|i: int| 0 <= i < 6 ==> old(acc)@[i] + c * d@[i] <= u128::MAX,
    ensures
        forall|i: int| 0 <= i < 6 ==> #[trigger] final(acc)@[i] == old(acc)@[i] + c * d@[i],
{
    let mut i: usize = 0;
    while i < 6
        invariant
            0 <= i <= 6,
            forall|j: int| 0 <= j < 6 ==> old(acc)@[j] + c * d@[j] <= u128::MAX,
            forall|j: int| 0 <= j < i ==> acc@[j] == old(acc)@[j] + c * d@[j],
            forall|j: int| i <= j < 6 ==> acc@[j] == old(acc)@[j],
        decreases 6 - i,
    {
        let x = c as u128 * d[i] as u128;
        acc[i] = acc[i] + x;
        i = i + 1;
    }
}

/// FNV-1a over the dealer's score and the counts. Two states may share a key:
/// a cached entry is only used when its stored state is the one asked for.
fn calculate_deck_signature(total: u8, soft: bool, counts: &PointCounts) -> u64 {
    let prime: u64 = 0x100_0000_01b3;
    let mut hash: u64 = 0xcbf2_9ce4_8422_2325;
    hash = (hash ^ total as u64).wrapping_mul(prime);
    hash = (hash ^ if soft { 1u64 } else { 0u64 }).wrapping_mul(prime);
    let mut i: usize = 0;
    while i < 11
        decreases 11 - i,
    {
        hash = (hash ^ counts[i] as u64).wrapping_mul(prime);
        i = i + 1;
    }
    hash
}

/// A standing player with `player_total` against a dealer distribution.
fn compare_hands(player_total: u8, dist: &[u64; 6]) -> (o: GameOutcome)
    requires
        is_dist(ints(dist@), 6),
    ensures
        o@ == stand_outcome(player_total as int, ints(dist@)),
{
    let pt = player_total;
    let ghost d = ints(dist@);
    proof {
        crate::model::lemma_vec_sum_6(d);
        assert(forall|j: int| 0 <= j < 6 ==> dist@[j] == d[j]);
    }
    let below: u64 = dist[5] + (if 17 < pt { dist[0] } else { 0 }) + (if 18 < pt { dist[1] } else { 0 })
        + (if 19 < pt { dist[2] } else { 0 }) + (if 20 < pt { dist[3] } else { 0 }) + (if 21 < pt {
        dist[4]
    } else {
        0
    });
    let above: u64 = (if 17 > pt { dist[0] } else { 0 }) + (if 18 > pt { dist[1] } else { 0 }) + (if 19
        > pt {
        dist[2]
    } else {
        0
    }) + (if 20 > pt { dist[3] } else { 0 }) + (if 21 > pt { dist[4] } else { 0 });
    let equal: u64 = if 17 <= pt && pt <= 21 { dist[(pt - 17) as usize] } else { 0 };
    let mut a: [u64; 11] = [0; 11];
    a[0] = below;
    a[1] = above;
    a[2] = equal;
    let o = GameOutcome::from_array(&a);
    proof {
        assert(o@ =~= stand_outcome(player_total as int, d));
    }
    o
}

/// The same outcome on a doubled bet.
fn to_doubled(o: &GameOutcome) -> (r: GameOutcome)
    requires
        is_dist(o@, 11),
    ensures
        r@ == doubled(o@),
{
    let a = o.to_array();
    proof {
        crate::model::lemma_vec_sum_11(o@);
    }
    let mut b: [u64; 11] = [0; 11];
    let mut i: usize = 5;
    while i < 10
        invariant
            5 <= i <= 10,
            is_dist(o@, 11),
            vec_sum(o@) == o@[0] + o@[1] + o@[2] + o@[3] + o@[4] + o@[5] + o@[6] + o@[7] + o@[8] + o@[9] + o@[10],
            forall|j: int| 0 <= j < 11 ==> a@[j] == o@[j],
            forall|j: int| 0 <= j < 5 ==> b@[j] == 0,
            forall|j: int| 5 <= j < i ==> b@[j] == o@[j] + o@[j - 5],
        decreases 10 - i,
    {
        b[i] = a[i] + a[i - 5];
        i = i + 1;
    }
    b[10] = a[10];
    let r = GameOutcome::from_array(&b);
    proof {
        assert(r@ =~= doubled(o@));
    }
    r
}

/// Entries of a vector of `u128` as integers.
pub open spec fn wide(a: Seq<u128>) -> Seq<int> {
    a.map_values(|x: u128| x as int)
}

/// The ranks dealt so far, from the first `level` slots.
pub open spec fn drawn_seq(drawn: [usize; 4], level: int) -> Seq<int> {
    drawn@.take(level).map_values(|x: usize| x as int)
}

/// Divides the weighted sums of a mix by the number of cards in the shoe.
fn finish(acc: &[u128; 11], shoe_total: u64, Ghost(s): Ghost<Seq<u32>>, Ghost(f): Ghost<
    spec_fn(int) -> Seq<int>,
>) -> (o: GameOutcome)
    requires
        s.len() == 11,
        shoe_total == seq_sum(s),
        shoe_total > 0,
        forall|i: int| 0 <= i < 11 ==> acc@[i] == weighted(s, column(f, i), 11),
        forall|r: int| 0 <= r < 11 && s[r] > 0 ==> is_dist(#[trigger] f(r), 11),
    ensures
        o@ == mix(s, f, 11),
        is_dist(o@, 11),
{
    proof {
        lemma_mix_dist(s, f, 11);
        lemma_vec_sum_entry(mix(s, f, 11));
    }
    let mut a: [u64; 11] = [0; 11];
    let mut i: usize = 0;
    while i < 11
        invariant
            0 <= i <= 11,
            shoe_total == seq_sum(s),
            shoe_total > 0,
            forall|j: int| 0 <= j < 11 ==> acc@[j] == weighted(s, column(f, j), 11),
            is_dist(mix(s, f, 11), 11),
            forall|j: int| 0 <= j < 11 ==> mix(s, f, 11)[j] <= vec_sum(mix(s, f, 11)),
            forall|j: int| 0 <= j < i ==> a@[j] == mix(s, f, 11)[j],
        decreases 11 - i,
    {
        proof {
            assert((acc@[i as int] as int) / (shoe_total as int) == mix(s, f, 11)[i as int]);
        }
        a[i] = (acc[i] / shoe_total as u128) as u64;
        i = i + 1;
    }
    let o = GameOutcome::from_array(&a);
    proof {
        assert(o@ =~= mix(s, f, 11));
    }
    o
}

impl ProbabilityCalculator {
    /// The rules the engine plays by.
    pub closed spec fn game_rules(&self) -> GameRules {
        self.rules
    }

    /// Every cached distribution is the exact one of its stored state.
    pub closed spec fn wf(&self) -> bool {
        forall|k: u64| #[trigger]
            self.memo@.contains_key(k) ==> entry_holds(
                self.rules.dealer_stands_on_soft_17,
                self.memo@[k],
            )
    }

    pub fn new(rules: GameRules) -> (c: Self)
        ensures
            c.wf(),
            c.game_rules() == rules,
    {
        ProbabilityCalculator { rules, strategy: BasicStrategy::new(), memo: HashMap::new() }
    }

    /// The dealer's final-total distribution from a dealer score and shoe.
    #[verifier::spinoff_prover]
    fn dealer_play_outcome(&mut self, total: u8, soft: bool, counts: &PointCounts, shoe_total: u64) -> (d:
        [u64; 6])
        requires
            old(self).wf(),
            total <= 21,
            soft ==> total >= 10,
            shoe_total == seq_sum(counts@),
        ensures
            final(self).wf(),
            final(self).rules == old(self).rules,
            ints(d@) == dealer_dist(old(self).rules.dealer_stands_on_soft_17, total as int, soft, counts@),
        decreases seq_sum(counts@),
    {
        let ghost s17 = self.rules.dealer_stands_on_soft_17;
        let ghost s = counts@;
        let ghost rules = self.rules;
        let key = calculate_deck_signature(total, soft, counts);
        match self.memo.get(&key) {
            Some(e) => {
                if e.total == total && e.soft == soft && same_counts(&e.counts, counts) {
                    return e.dist;
                }
            },
            None => {},
        }
        let mut dist: [u64; 6] = [0; 6];
        if !must_draw(total, soft, self.rules.dealer_stands_on_soft_17) {
            if 17 <= total && total <= 21 {
                dist[(total - 17) as usize] = PROB_ONE;
                proof {
                    assert(ints(dist@) =~= unit(6, total - 17));
                }
            } else {
                dist[5] = PROB_ONE;
                proof {
                    assert(ints(dist@) =~= unit(6, 5));
                }
            }
        } else if shoe_total == 0 {
            proof {
                assert(ints(dist@) =~= zeros(6));
            }
        } else {
            let ghost f = dealer_draws(s17, total as int, soft, s);
            proof {
                lemma_dealer_dist(s17, total as int, soft, s);
                lemma_dealer_draws_dist(s17, total as int, soft, s);
            }
            let mut acc: [u128; 6] = [0; 6];
            let mut r: usize = 0;
            while r < 11
                invariant
                    0 <= r <= 11,
                    self.wf(),
                    self.rules == rules,
                    s17 == rules.dealer_stands_on_soft_17,
                    s == counts@,
                    s.len() == 11,
                    shoe_total == seq_sum(s),
                    total <= 21,
                    soft ==> total >= 10,
                    f == dealer_draws(s17, total as int, soft, s),
                    forall|x: int| 0 <= x < 11 && s[x] > 0 ==> is_dist(#[trigger] f(x), 6),
                    forall|i: int|
                        0 <= i < 6 ==> acc@[i] == weighted(s, column(f, i), r as int) && acc@[i]
                            <= PROB_ONE * seq_sum(s.take(r as int)),
                decreases 11 - r,
            {
                let c = counts[r];
                let ghost before = wide(acc@);
                proof {
                    lemma_mix_step(s, f, 6, r as int, before);
                }
                if c > 0 {
                    let (t2, s2) = add_rank(total, soft, r);
                    let child: [u64; 6] = if t2 > 21 {
                        let mut b: [u64; 6] = [0; 6];
                        b[5] = PROB_ONE;
                        proof {
                            assert(ints(b@) =~= unit(6, 5));
                        }
                        b
                    } else {
                        let mut next = *counts;
                        next[r] = c - 1;
                        proof {
                            assert(next@ =~= dec(s, r as int));
                            lemma_dec_sum(s, r as int);
                        }
                        self.dealer_play_outcome(t2, s2, &next, shoe_total - 1)
                    };
                    proof {
                        assert(ints(child@) == f(r as int));
                        assert forall|i: int| 0 <= i < 6 implies acc@[i] + c * child@[i] <= u128::MAX by {
                            assert(before[i] == acc@[i]);
                            assert(child@[i] == f(r as int)[i]);
                            assert(weighted(s, column(f, i), r + 1) == before[i] + s[r as int] * f(r as int)[i]);
                        }
                    }
                    accumulate_dealer(&mut acc, &child, c);
                    proof {
                        assert forall|i: int| 0 <= i < 6 implies acc@[i] == weighted(s, column(f, i), r + 1)
                            && acc@[i] <= PROB_ONE * seq_sum(s.take(r + 1)) by {
                            assert(ints(child@)[i] == child@[i]);
                            assert(child@[i] == f(r as int)[i]);
                            assert(acc@[i] == before[i] + c * child@[i]);
                            assert(weighted(s, column(f, i), r + 1) == before[i] + s[r as int] * f(r as int)[i]);
                        }
                    }
                } else {
                    proof {
                        assert forall|i: int| 0 <= i < 6 implies acc@[i] == weighted(s, column(f, i), r + 1)
                            && acc@[i] <= PROB_ONE * seq_sum(s.take(r + 1)) by {
                            assert(acc@[i] == before[i]);
                            assert(s[r as int] == 0);
                            assert(weighted(s, column(f, i), r + 1) == before[i] + s[r as int] * f(r as int)[i]);
                        }
                    }
                }
                r = r + 1;
            }
            proof {
                lemma_vec_sum_entry(dealer_dist(s17, total as int, soft, s));
            }
            let mut i: usize = 0;
            while i < 6
                invariant
                    0 <= i <= 6,
                    shoe_total == seq_sum(s),
                    shoe_total > 0,
                    dealer_must_draw(total as int, soft, s17),
                    f == dealer_draws(s17, total as int, soft, s),
                    forall|j: int| 0 <= j < 6 ==> acc@[j] == weighted(s, column(f, j), 11),
                    is_dist(dealer_dist(s17, total as int, soft, s), 6),
                    forall|j: int|
                        0 <= j < 6 ==> dealer_dist(s17, total as int, soft, s)[j] <= vec_sum(
                            dealer_dist(s17, total as int, soft, s),
                        ),
                    forall|j: int| 0 <= j < i ==> dist@[j] == dealer_dist(s17, total as int, soft, s)[j],
                decreases 6 - i,
            {
                proof {
                    assert((acc@[i as int] as int) / (shoe_total as int) == dealer_dist(
                        s17,
                        total as int,
                        soft,
                        s,
                    )[i as int]);
                }
                dist[i] = (acc[i] / shoe_total as u128) as u64;
                i = i + 1;
            }
            proof {
                assert(ints(dist@) =~= dealer_dist(s17, total as int, soft, s));
            }
        }
        let entry = MemoEntry { total, soft, counts: *counts, dist };
        self.memo.insert(key, entry);
        dist
    }

    /// The outcome of the player's turn and the dealer's.
    #[verifier::spinoff_prover]
    fn calculate_game_outcome(
        &mut self,
        total: u8,
        soft: bool,
        count: usize,
        pair: u8,
        dealer_total: u8,
        dealer_soft: bool,
        up: u8,
        counts: &PointCounts,
        shoe_total: u64,
    ) -> (o: GameOutcome)
        requires
            old(self).wf(),
            soft ==> total >= 10,
            dealer_total <= 21,
            dealer_soft ==> dealer_total >= 10,
            shoe_total == seq_sum(counts@),
        ensures
            final(self).wf(),
            final(self).rules == old(self).rules,
            o@ == play(old(self).rules.dealer_stands_on_soft_17, old(self).rules.allow_surrender,
                total as int,
                soft,
                count as int,
                pair as int,
                dealer_total as int,
                dealer_soft,
                up as int,
                counts@,
            ),
        decreases seq_sum(counts@), 1int,
    {
        if total > 21 {
            return certain(DEALER_WIN);
        }
        let mut action = self.strategy.action_for(total, soft, count, pair, up);
        if action == Action::Split {
            action = self.strategy.restricted_for(total, soft, count, up);
        }
        if action == Action::Surrender && (!self.rules.allow_surrender || count != 2) {
            action = self.strategy.restricted_for(total, soft, count, up);
        }
        proof {
            assert(action == decide(self.rules.allow_surrender, total as int, soft, count as int, pair as int, up as int));
        }
        match action {
            Action::Hit => {
                self.player_hit_outcome(total, soft, count, dealer_total, dealer_soft, up, counts, shoe_total)
            },
            Action::Double => {
                let sub = self.player_double_outcome(total, soft, dealer_total, dealer_soft, counts, shoe_total);
                to_doubled(&sub)
            },
            Action::Surrender => certain(SURRENDER),
            _ => {
                let d = self.dealer_play_outcome(dealer_total, dealer_soft, counts, shoe_total);
                proof {
                    lemma_dealer_dist(self.rules.dealer_stands_on_soft_17, dealer_total as int, dealer_soft, counts@);
                }
                compare_hands(total, &d)
            },
        }
    }

    /// The player takes a card, then plays on.
    #[verifier::spinoff_prover]
    fn player_hit_outcome(
        &mut self,
        total: u8,
        soft: bool,
        count: usize,
        dealer_total: u8,
        dealer_soft: bool,
        up: u8,
        counts: &PointCounts,
        shoe_total: u64,
    ) -> (o: GameOutcome)
        requires
            old(self).wf(),
            total <= 21,
            count <= 10,
            soft ==> total >= 10,
            dealer_total <= 21,
            dealer_soft ==> dealer_total >= 10,
            shoe_total == seq_sum(counts@),
        ensures
            final(self).wf(),
            final(self).rules == old(self).rules,
            o@ == mix(
                counts@,
                hit_draws(old(self).rules.dealer_stands_on_soft_17, old(self).rules.allow_surrender,
                    total as int,
                    soft,
                    count as int,
                    dealer_total as int,
                    dealer_soft,
                    up as int,
                    counts@,
                ),
                11,
            ),
        decreases seq_sum(counts@), 0int,
    {
        let ghost s = counts@;
        let ghost rules = self.rules;
        let ghost f = hit_draws(rules.dealer_stands_on_soft_17, rules.allow_surrender, total as int, soft, count as int, dealer_total as int, dealer_soft, up as int, s);
        if shoe_total == 0 {
            let z = GameOutcome::zero();
            proof {
                assert(z@ =~= zeros(11));
            }
            return z;
        }
        proof {
            lemma_hit_draws_dist(rules.dealer_stands_on_soft_17, rules.allow_surrender, total as int, soft, count as int, dealer_total as int, dealer_soft, up as int, s);
        }
        let mut acc: [u128; 11] = [0; 11];
        let mut r: usize = 0;
        while r < 11
            invariant
                0 <= r <= 11,
                self.wf(),
                self.rules == rules,
                s == counts@,
                s.len() == 11,
                shoe_total == seq_sum(s),
                total <= 21,
                count <= 10,
                soft ==> total >= 10,
                dealer_total <= 21,
                dealer_soft ==> dealer_total >= 10,
                f == hit_draws(rules.dealer_stands_on_soft_17, rules.allow_surrender, total as int, soft, count as int, dealer_total as int, dealer_soft, up as int, s),
                forall|x: int| 0 <= x < 11 && s[x] > 0 ==> is_dist(#[trigger] f(x), 11),
                forall|i: int|
                    0 <= i < 11 ==> acc@[i] == weighted(s, column(f, i), r as int) && acc@[i]
                        <= PROB_ONE * seq_sum(s.take(r as int)),
            decreases 11 - r,
        {
            let c = counts[r];
            let ghost before = wide(acc@);
            proof {
                lemma_mix_step(s, f, 11, r as int, before);
            }
            if c > 0 {
                let (t2, s2) = add_rank(total, soft, r);
                let child = if t2 > 21 {
                    certain(DEALER_WIN)
                } else {
                    let mut next = *counts;
                    next[r] = c - 1;
                    proof {
                        assert(next@ =~= dec(s, r as int));
                        lemma_dec_sum(s, r as int);
                    }
                    self.calculate_game_outcome(t2, s2, count + 1, 0, dealer_total, dealer_soft, up, &next, shoe_total - 1)
                };
                proof {
                    assert(child@ == f(r as int));
                    assert forall|i: int| 0 <= i < 11 implies acc@[i] + c * child@[i] <= u128::MAX by {
                        assert(before[i] == acc@[i]);
                        assert(weighted(s, column(f, i), r + 1) == before[i] + s[r as int] * f(r as int)[i]);
                    }
                }
                accumulate(&mut acc, &child, c);
                proof {
                    assert forall|i: int| 0 <= i < 11 implies acc@[i] == weighted(s, column(f, i), r + 1)
                        && acc@[i] <= PROB_ONE * seq_sum(s.take(r + 1)) by {
                        assert(child@[i] == f(r as int)[i]);
                        assert(acc@[i] == before[i] + c * child@[i]);
                        assert(weighted(s, column(f, i), r + 1) == before[i] + s[r as int] * f(r as int)[i]);
                    }
                }
            } else {
                proof {
                    assert forall|i: int| 0 <= i < 11 implies acc@[i] == weighted(s, column(f, i), r + 1)
                        && acc@[i] <= PROB_ONE * seq_sum(s.take(r + 1)) by {
                        assert(acc@[i] == before[i]);
                        assert(s[r as int] == 0);
                        assert(weighted(s, column(f, i), r + 1) == before[i] + s[r as int] * f(r as int)[i]);
                    }
                }
            }
            r = r + 1;
        }
        finish(&acc, shoe_total, Ghost(s), Ghost(f))
    }

    /// The outcome probabilities of a round dealt from `deck`. The cache is
    /// emptied first.
    pub fn calculate_table_ev(&mut self, deck: &CardCounts) -> (o: GameOutcome)
        requires
            old(self).wf(),
        ensures
            final(self).wf(),
            final(self).game_rules() == old(self).game_rules(),
            o@ == table_outcome(old(self).game_rules(), shoe_of(deck@)),
            is_dist(o@, 11),
    {
        self.memo.clear();
        let counts = card_counts_to_point_counts(deck);
        let total = sum_counts(&counts);
        proof {
            crate::model::lemma_table_dist(self.rules, counts@);
        }
        if total < 4 {
            let z = GameOutcome::zero();
            proof {
                assert(z@ =~= zeros(11));
            }
            return z;
        }
        let drawn: [usize; 4] = [0; 4];
        proof {
            assert(drawn_seq(drawn, 0) =~= Seq::<int>::empty());
        }
        self.calculate_layered(drawn, 0, &counts, total)
    }

    /// Deals the four first cards one layer at a time (player, dealer up,
    /// player, dealer hole), each rank weighted by its share of the shoe.
    #[verifier::spinoff_prover]
    fn calculate_layered(&mut self, drawn: [usize; 4], level: usize, counts: &PointCounts, shoe_total: u64) -> (o:
        GameOutcome)
        requires
            old(self).wf(),
            level <= 4,
            forall|j: int| 0 <= j < level ==> drawn@[j] < 11,
            shoe_total == seq_sum(counts@),
        ensures
            final(self).wf(),
            final(self).rules == old(self).rules,
            o@ == deal(old(self).rules.dealer_stands_on_soft_17, old(self).rules.allow_surrender, drawn_seq(drawn, level as int), counts@),
        decreases seq_sum(counts@),
    {
        let ghost s = counts@;
        let ghost rules = self.rules;
        let ghost ds = drawn_seq(drawn, level as int);
        if level == 4 {
            return self.initial_round(drawn, counts, shoe_total);
        }
        let ghost f = deal_draws(rules.dealer_stands_on_soft_17, rules.allow_surrender, ds, s);
        if shoe_total == 0 {
            let z = GameOutcome::zero();
            proof {
                assert(z@ =~= zeros(11));
            }
            return z;
        }
        proof {
            lemma_deal_draws_dist(rules.dealer_stands_on_soft_17, rules.allow_surrender, ds, s);
        }
        let mut acc: [u128; 11] = [0; 11];
        let mut r: usize = 0;
        while r < 11
            invariant
                0 <= r <= 11,
                self.wf(),
                self.rules == rules,
                s == counts@,
                s.len() == 11,
                shoe_total == seq_sum(s),
                level < 4,
                forall|j: int| 0 <= j < level ==> drawn@[j] < 11,
                ds == drawn_seq(drawn, level as int),
                f == deal_draws(rules.dealer_stands_on_soft_17, rules.allow_surrender, ds, s),
                forall|x: int| 0 <= x < 11 && s[x] > 0 ==> is_dist(#[trigger] f(x), 11),
                forall|i: int|
                    0 <= i < 11 ==> acc@[i] == weighted(s, column(f, i), r as int) && acc@[i]
                        <= PROB_ONE * seq_sum(s.take(r as int)),
            decreases 11 - r,
        {
            let c = counts[r];
            let ghost before = wide(acc@);
            proof {
                lemma_mix_step(s, f, 11, r as int, before);
            }
            if c > 0 {
                let mut next = *counts;
                next[r] = c - 1;
                let mut next_drawn = drawn;
                next_drawn[level] = r;
                proof {
                    assert(next@ =~= dec(s, r as int));
                    assert(drawn_seq(next_drawn, level + 1) =~= ds.push(r as int));
                    lemma_dec_sum(s, r as int);
                }
                let child = self.calculate_layered(next_drawn, level + 1, &next, shoe_total - 1);
                proof {
                    assert(child@ == f(r as int));
                    assert forall|i: int| 0 <= i < 11 implies acc@[i] + c * child@[i] <= u128::MAX by {
                        assert(before[i] == acc@[i]);
                        assert(weighted(s, column(f, i), r + 1) == before[i] + s[r as int] * f(r as int)[i]);
                    }
                }
                accumulate(&mut acc, &child, c);
                proof {
                    assert forall|i: int| 0 <= i < 11 implies acc@[i] == weighted(s, column(f, i), r + 1)
                        && acc@[i] <= PROB_ONE * seq_sum(s.take(r + 1)) by {
                        assert(child@[i] == f(r as int)[i]);
                        assert(acc@[i] == before[i] + c * child@[i]);
                        assert(weighted(s, column(f, i), r + 1) == before[i] + s[r as int] * f(r as int)[i]);
                    }
                }
            } else {
                proof {
                    assert forall|i: int| 0 <= i < 11 implies acc@[i] == weighted(s, column(f, i), r + 1)
                        && acc@[i] <= PROB_ONE * seq_sum(s.take(r + 1)) by {
                        assert(acc@[i] == before[i]);
                        assert(s[r as int] == 0);
                        assert(weighted(s, column(f, i), r + 1) == before[i] + s[r as int] * f(r as int)[i]);
                    }
                }
            }
            r = r + 1;
        }
        finish(&acc, shoe_total, Ghost(s), Ghost(f))
    }

    /// The round once four cards are out: naturals settle it, else the player plays.
    #[verifier::spinoff_prover]
    fn initial_round(&mut self, drawn: [usize; 4], counts: &PointCounts, shoe_total: u64) -> (o: GameOutcome)
        requires
            old(self).wf(),
            forall|j: int| 0 <= j < 4 ==> drawn@[j] < 11,
            shoe_total == seq_sum(counts@),
        ensures
            final(self).wf(),
            final(self).rules == old(self).rules,
            o@ == round_outcome(old(self).rules.dealer_stands_on_soft_17, old(self).rules.allow_surrender, drawn_seq(drawn, 4), counts@),
    {
        let ghost ds = drawn_seq(drawn, 4);
        proof {
            assert(ds[0] == drawn@[0] && ds[1] == drawn@[1] && ds[2] == drawn@[2] && ds[3] == drawn@[3]);
        }
        let (first_total, first_soft) = add_rank(0, false, drawn[0]);
        let (player_total, player_soft) = add_rank(first_total, first_soft, drawn[2]);
        let (up_total, up_soft) = add_rank(0, false, drawn[1]);
        let (dealer_total, dealer_soft) = add_rank(up_total, up_soft, drawn[3]);
        let player_natural = player_total == 21;
        let dealer_natural = dealer_total == 21;
        if player_natural && dealer_natural {
            return certain(PUSH);
        }
        if player_natural {
            return certain(PLAYER_BLACKJACK);
        }
        if dealer_natural {
            return certain(DEALER_BLACKJACK);
        }
        let v1 = point_index_to_value(drawn[0]);
        let v2 = point_index_to_value(drawn[2]);
        let pair = if v1 == v2 { v1 } else { 0 };
        let up = if drawn[1] == 0 { 11 } else { point_index_to_value(drawn[1]) };
        self.calculate_game_outcome(player_total, player_soft, 2, pair, dealer_total, dealer_soft, up, counts, shoe_total)
    }

    /// The player doubles: one card, then stands.
    #[verifier::spinoff_prover]
    fn player_double_outcome(
        &mut self,
        total: u8,
        soft: bool,
        dealer_total: u8,
        dealer_soft: bool,
        counts: &PointCounts,
        shoe_total: u64,
    ) -> (o: GameOutcome)
        requires
            old(self).wf(),
            total <= 21,
            soft ==> total >= 10,
            dealer_total <= 21,
            dealer_soft ==> dealer_total >= 10,
            shoe_total == seq_sum(counts@),
        ensures
            final(self).wf(),
            final(self).rules == old(self).rules,
            o@ == mix(
                counts@,
                double_draws(old(self).rules.dealer_stands_on_soft_17, old(self).rules.allow_surrender, total as int, soft, dealer_total as int, dealer_soft, counts@),
                11,
            ),
            is_dist(o@, 11),
    {
        let ghost s = counts@;
        let ghost rules = self.rules;
        let ghost s17 = rules.dealer_stands_on_soft_17;
        let ghost f = double_draws(rules.dealer_stands_on_soft_17, rules.allow_surrender, total as int, soft, dealer_total as int, dealer_soft, s);
        if shoe_total == 0 {
            let z = GameOutcome::zero();
            proof {
                assert(z@ =~= zeros(11));
                crate::model::lemma_zeros_dist(11);
            }
            return z;
        }
        proof {
            lemma_double_draws_dist(rules.dealer_stands_on_soft_17, rules.allow_surrender, total as int, soft, dealer_total as int, dealer_soft, s);
        }
        let mut acc: [u128; 11] = [0; 11];
        let mut r: usize = 0;
        while r < 11
            invariant
                0 <= r <= 11,
                self.wf(),
                self.rules == rules,
                s17 == rules.dealer_stands_on_soft_17,
                s == counts@,
                s.len() == 11,
                shoe_total == seq_sum(s),
                total <= 21,
                soft ==> total >= 10,
                dealer_total <= 21,
                dealer_soft ==> dealer_total >= 10,
                f == double_draws(rules.dealer_stands_on_soft_17, rules.allow_surrender, total as int, soft, dealer_total as int, dealer_soft, s),
                forall|x: int| 0 <= x < 11 && s[x] > 0 ==> is_dist(#[trigger] f(x), 11),
                forall|i: int|
                    0 <= i < 11 ==> acc@[i] == weighted(s, column(f, i), r as int) && acc@[i]
                        <= PROB_ONE * seq_sum(s.take(r as int)),
            decreases 11 - r,
        {
            let c = counts[r];
            let ghost before = wide(acc@);
            proof {
                lemma_mix_step(s, f, 11, r as int, before);
            }
            if c > 0 {
                let (t2, s2) = add_rank(total, soft, r);
                let child = if t2 > 21 {
                    certain(DEALER_WIN)
                } else {
                    let mut next = *counts;
                    next[r] = c - 1;
                    proof {
                        assert(next@ =~= dec(s, r as int));
                        lemma_dec_sum(s, r as int);
                    }
                    let d = self.dealer_play_outcome(dealer_total, dealer_soft, &next, shoe_total - 1);
                    proof {
                        lemma_dealer_dist(s17, dealer_total as int, dealer_soft, next@);
                    }
                    compare_hands(t2, &d)
                };
                proof {
                    assert(child@ == f(r as int));
                    assert forall|i: int| 0 <= i < 11 implies acc@[i] + c * child@[i] <= u128::MAX by {
                        assert(before[i] == acc@[i]);
                        assert(weighted(s, column(f, i), r + 1) == before[i] + s[r as int] * f(r as int)[i]);
                    }
                }
                accumulate(&mut acc, &child, c);
                proof {
                    assert forall|i: int| 0 <= i < 11 implies acc@[i] == weighted(s, column(f, i), r + 1)
                        && acc@[i] <= PROB_ONE * seq_sum(s.take(r + 1)) by {
                        assert(child@[i] == f(r as int)[i]);
                        assert(acc@[i] == before[i] + c * child@[i]);
                        assert(weighted(s, column(f, i), r + 1) == before[i] + s[r as int] * f(r as int)[i]);
                    }
                }
            } else {
                proof {
                    assert forall|i: int| 0 <= i < 11 implies acc@[i] == weighted(s, column(f, i), r + 1)
                        && acc@[i] <= PROB_ONE * seq_sum(s.take(r + 1)) by {
                        assert(acc@[i] == before[i]);
                        assert(s[r as int] == 0);
                        assert(weighted(s, column(f, i), r + 1) == before[i] + s[r as int] * f(r as int)[i]);
                    }
                }
            }
            r = r + 1;
        }
        finish(&acc, shoe_total, Ghost(s), Ghost(f))
    }
}

} // verus!
