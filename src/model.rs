//! The mathematical model of a round: every draw is weighted by the share of
//! its rank in the remaining shoe, and each branching point rounds its weighted
//! average down to whole units of `PROB_ONE`.
use crate::rules::{dealer_must_draw, GameRules};
use crate::strategy::{full_action, restricted_action};
use crate::types::{
    bucket_points, seq_sum, vec_sum, Action, DEALER_BLACKJACK, DEALER_WIN, PLAYER_BLACKJACK,
    PROB_ONE, PUSH, SURRENDER,
};
use vstd::arithmetic::div_mod::{lemma_div_pos_is_pos, lemma_fundamental_div_mod, lemma_mod_pos_bound};
use vstd::prelude::*;

verus! {

/// A card of rank `r` can be drawn from shoe `s`.
pub open spec fn can_draw(s: Seq<u32>, r: int) -> bool {
    0 <= r < s.len() && s[r] > 0
}

/// The shoe after one card of rank `r` is drawn.
pub open spec fn dec(s: Seq<u32>, r: int) -> Seq<u32> {
    s.update(r, (s[r] - 1) as u32)
}

pub proof fn lemma_seq_sum_update(s: Seq<u32>, r: int, v: u32)
    requires
        0 <= r < s.len(),
    ensures
        seq_sum(s.update(r, v)) == seq_sum(s) - s[r] + v,
    decreases s.len(),
{
    if r == s.len() - 1 {
        assert(s.update(r, v).drop_last() =~= s.drop_last());
    } else {
        lemma_seq_sum_update(s.drop_last(), r, v);
        assert(s.update(r, v).drop_last() =~= s.drop_last().update(r, v));
    }
}

pub proof fn lemma_dec_sum(s: Seq<u32>, r: int)
    requires
        can_draw(s, r),
    ensures
        seq_sum(dec(s, r)) == seq_sum(s) - 1,
{
    lemma_seq_sum_update(s, r, (s[r] - 1) as u32);
}

/// A vector of `n` zeros.
pub open spec fn zeros(n: int) -> Seq<int> {
    Seq::new(n as nat, |i: int| 0int)
}

/// Certainty of entry `k` in a vector of `n` entries.
pub open spec fn unit(n: int, k: int) -> Seq<int> {
    Seq::new(n as nat, |i: int| if i == k { PROB_ONE as int } else { 0int })
}

/// `sum over r < n of s[r] * g(r)`.
pub open spec fn weighted(s: Seq<u32>, g: spec_fn(int) -> int, n: int) -> int
    decreases n,
{
    if n <= 0 {
        0
    } else {
        weighted(s, g, n - 1) + s[n - 1] * g(n - 1)
    }
}

/// Entry `i` of each vector of a family.
pub open spec fn column(f: spec_fn(int) -> Seq<int>, i: int) -> spec_fn(int) -> int {
    |r: int| f(r)[i]
}

/// The average of the vectors `f(r)`, each weighted by the number of cards of
/// rank `r` in the shoe, rounded down entry by entry; zero for an empty shoe.
pub open spec fn mix(s: Seq<u32>, f: spec_fn(int) -> Seq<int>, width: int) -> Seq<int> {
    if seq_sum(s) == 0 {
        zeros(width)
    } else {
        Seq::new(width as nat, |i: int| weighted(s, column(f, i), 11) / (seq_sum(s) as int))
    }
}

/// A hand's score after a card of rank `r`: its total, and whether an ace still
/// counts eleven.
pub open spec fn score_add(total: int, soft: bool, r: int) -> (int, bool) {
    let hard = if soft { total - 10 } else { total };
    let h = hard + bucket_points(r);
    if (soft || r == 0) && h + 10 <= 21 {
        (h + 10, true)
    } else {
        (h, false)
    }
}

/// The score of a two-card hand.
pub open spec fn start_score(a: int, b: int) -> (int, bool) {
    let first = score_add(0, false, a);
    score_add(first.0, first.1, b)
}

/// Probabilities of the dealer's final total: entries 0..=4 for 17..=21, entry
/// 5 for a bust. A dealer who must draw from an empty shoe ends nowhere.
pub open spec fn dealer_dist(s17: bool, total: int, soft: bool, s: Seq<u32>) -> Seq<int>
    decreases seq_sum(s), 1int,
    via dealer_dist_decreases
{
    if !dealer_must_draw(total, soft, s17) {
        if 17 <= total <= 21 {
            unit(6, total - 17)
        } else {
            unit(6, 5)
        }
    } else {
        mix(s, dealer_draws(s17, total, soft, s), 6)
    }
}

/// The dealer's distribution after each possible draw.
pub open spec fn dealer_draws(s17: bool, total: int, soft: bool, s: Seq<u32>) -> spec_fn(int) -> Seq<int>
    decreases seq_sum(s), 0int,
    via dealer_draws_decreases
{
    |r: int|
        if !can_draw(s, r) {
            zeros(6)
        } else {
            let next = score_add(total, soft, r);
            if next.0 > 21 {
                unit(6, 5)
            } else {
                dealer_dist(s17, next.0, next.1, dec(s, r))
            }
        }
}

#[via_fn]
proof fn dealer_dist_decreases(s17: bool, total: int, soft: bool, s: Seq<u32>) {
}

#[via_fn]
proof fn dealer_draws_decreases(s17: bool, total: int, soft: bool, s: Seq<u32>) {
    assert forall|r: int| can_draw(s, r) implies seq_sum(dec(s, r)) < seq_sum(s) by {
        lemma_dec_sum(s, r);
    }
}

/// An outcome vector holding only normal-bet results.
pub open spec fn normal_outcome(win: int, lose: int, push: int) -> Seq<int> {
    seq![win, lose, push, 0, 0, 0, 0, 0, 0, 0, 0]
}

/// Dealer's final totals below `pt` (a bust counts as below anything).
pub open spec fn dealer_below(pt: int, dd: Seq<int>) -> int {
    dd[5] + (if 17 < pt { dd[0] } else { 0 }) + (if 18 < pt { dd[1] } else { 0 }) + (if 19 < pt {
        dd[2]
    } else {
        0
    }) + (if 20 < pt { dd[3] } else { 0 }) + (if 21 < pt { dd[4] } else { 0 })
}

/// Dealer's final totals above `pt`.
pub open spec fn dealer_above(pt: int, dd: Seq<int>) -> int {
    (if 17 > pt { dd[0] } else { 0 }) + (if 18 > pt { dd[1] } else { 0 }) + (if 19 > pt {
        dd[2]
    } else {
        0
    }) + (if 20 > pt { dd[3] } else { 0 }) + (if 21 > pt { dd[4] } else { 0 })
}

/// Dealer's final total equal to `pt`.
pub open spec fn dealer_equal(pt: int, dd: Seq<int>) -> int {
    if 17 <= pt <= 21 {
        dd[pt - 17]
    } else {
        0
    }
}

/// A standing player with `pt` against the dealer's final-total distribution:
/// higher wins, lower loses, equal pushes.
pub open spec fn stand_outcome(pt: int, dd: Seq<int>) -> Seq<int> {
    normal_outcome(dealer_below(pt, dd), dealer_above(pt, dd), dealer_equal(pt, dd))
}

/// The same outcomes on a doubled bet: normal-bet mass moves to the doubled entries.
pub open spec fn doubled(v: Seq<int>) -> Seq<int> {
    Seq::new(
        11,
        |i: int|
            if i < 5 {
                0
            } else if i < 10 {
                v[i] + v[i - 5]
            } else {
                v[i]
            },
    )
}

/// The action taken: the full lookup, falling back to the restricted one where
/// it says split (never played) or a surrender that is not open.
pub open spec fn decide(
    surrender: bool,
    total: int,
    soft: bool,
    count: int,
    pair: int,
    up: int,
) -> Action {
    let a = full_action(total, soft, count, pair, up);
    if a == Action::Split || (a == Action::Surrender && !(surrender && count == 2)) {
        restricted_action(total, soft, count, up)
    } else {
        a
    }
}

/// The outcome of the player's turn and the dealer's, from a player hand of
/// `count` cards scoring (`total`, `soft`) (`pair` as in `full_action`), a
/// dealer hand scoring (`dealer_total`, `dealer_soft`) with up-card value `up`,
/// and shoe `s`.
pub open spec fn play(
    s17: bool,
    surrender: bool,
    total: int,
    soft: bool,
    count: int,
    pair: int,
    dealer_total: int,
    dealer_soft: bool,
    up: int,
    s: Seq<u32>,
) -> Seq<int>
    decreases seq_sum(s), 1int,
    via play_decreases
{
    if total > 21 {
        unit(11, DEALER_WIN as int)
    } else {
        match decide(surrender, total, soft, count, pair, up) {
            Action::Hit => mix(
                s,
                hit_draws(s17, surrender, total, soft, count, dealer_total, dealer_soft, up, s),
                11,
            ),
            Action::Double => doubled(
                mix(s, double_draws(s17, surrender, total, soft, dealer_total, dealer_soft, s), 11),
            ),
            Action::Surrender => unit(11, SURRENDER as int),
            _ => stand_outcome(
                total,
                dealer_dist(s17, dealer_total, dealer_soft, s),
            ),
        }
    }
}

/// The player's outcome after each possible hit card.
pub open spec fn hit_draws(
    s17: bool,
    surrender: bool,
    total: int,
    soft: bool,
    count: int,
    dealer_total: int,
    dealer_soft: bool,
    up: int,
    s: Seq<u32>,
) -> spec_fn(int) -> Seq<int>
    decreases seq_sum(s), 0int,
    via hit_draws_decreases
{
    |r: int|
        if !can_draw(s, r) {
            zeros(11)
        } else {
            let next = score_add(total, soft, r);
            if next.0 > 21 {
                unit(11, DEALER_WIN as int)
            } else {
                play(s17, surrender, next.0, next.1, count + 1, 0, dealer_total, dealer_soft, up, dec(s, r))
            }
        }
}

/// The outcome after each possible card of a double, the player then standing.
pub open spec fn double_draws(
    s17: bool,
    surrender: bool,
    total: int,
    soft: bool,
    dealer_total: int,
    dealer_soft: bool,
    s: Seq<u32>,
) -> spec_fn(int) -> Seq<int> {
    |r: int|
        if !can_draw(s, r) {
            zeros(11)
        } else {
            let next = score_add(total, soft, r);
            if next.0 > 21 {
                unit(11, DEALER_WIN as int)
            } else {
                stand_outcome(
                    next.0,
                    dealer_dist(s17, dealer_total, dealer_soft, dec(s, r)),
                )
            }
        }
}

#[via_fn]
proof fn play_decreases(
    s17: bool,
    surrender: bool,
    total: int,
    soft: bool,
    count: int,
    pair: int,
    dealer_total: int,
    dealer_soft: bool,
    up: int,
    s: Seq<u32>,
) {
}

#[via_fn]
proof fn hit_draws_decreases(
    s17: bool,
    surrender: bool,
    total: int,
    soft: bool,
    count: int,
    dealer_total: int,
    dealer_soft: bool,
    up: int,
    s: Seq<u32>,
) {
    assert forall|r: int| can_draw(s, r) implies seq_sum(dec(s, r)) < seq_sum(s) by {
        lemma_dec_sum(s, r);
    }
}

/// Points of each card of a two-card hand of ranks `a` and `b` when they pair, else 0.
pub open spec fn pair_of(a: int, b: int) -> int {
    if bucket_points(a) == bucket_points(b) {
        bucket_points(a)
    } else {
        0
    }
}

/// Strategy value of an up-card of rank `r`: an ace counts 11.
pub open spec fn up_value(r: int) -> int {
    if r == 0 {
        11
    } else {
        bucket_points(r)
    }
}

/// The round once the four first cards are out: `drawn` holds the ranks of the
/// player's first card, the dealer's up-card, the player's second card and the
/// dealer's hole card. Naturals settle it at once.
pub open spec fn round_outcome(s17: bool, surrender: bool, drawn: Seq<int>, s: Seq<u32>) -> Seq<int> {
    let p = start_score(drawn[0], drawn[2]);
    let d = start_score(drawn[1], drawn[3]);
    if p.0 == 21 && d.0 == 21 {
        unit(11, PUSH as int)
    } else if p.0 == 21 {
        unit(11, PLAYER_BLACKJACK as int)
    } else if d.0 == 21 {
        unit(11, DEALER_BLACKJACK as int)
    } else {
        play(s17, surrender, p.0, p.1, 2, pair_of(drawn[0], drawn[2]), d.0, d.1, up_value(drawn[1]), s)
    }
}

/// The round from the shoe `s` with the ranks `drawn` already dealt, in the
/// order player, dealer up, player, dealer hole.
pub open spec fn deal(s17: bool, surrender: bool, drawn: Seq<int>, s: Seq<u32>) -> Seq<int>
    decreases seq_sum(s), 1int,
    via deal_decreases
{
    if drawn.len() >= 4 {
        round_outcome(s17, surrender, drawn, s)
    } else {
        mix(s, deal_draws(s17, surrender, drawn, s), 11)
    }
}

/// The round after each possible next dealt card.
pub open spec fn deal_draws(s17: bool, surrender: bool, drawn: Seq<int>, s: Seq<u32>) -> spec_fn(int) -> Seq<int>
    decreases seq_sum(s), 0int,
    via deal_draws_decreases
{
    |r: int|
        if !can_draw(s, r) {
            zeros(11)
        } else {
            deal(s17, surrender, drawn.push(r), dec(s, r))
        }
}

#[via_fn]
proof fn deal_decreases(s17: bool, surrender: bool, drawn: Seq<int>, s: Seq<u32>) {
}

#[via_fn]
proof fn deal_draws_decreases(s17: bool, surrender: bool, drawn: Seq<int>, s: Seq<u32>) {
    assert forall|r: int| can_draw(s, r) implies seq_sum(dec(s, r)) < seq_sum(s) by {
        lemma_dec_sum(s, r);
    }
}

/// The outcome probabilities of a round dealt from shoe `s`; zero when the shoe
/// holds fewer than four cards.
pub open spec fn table_outcome(rules: GameRules, s: Seq<u32>) -> Seq<int> {
    if seq_sum(s) < 4 {
        zeros(11)
    } else {
        deal(rules.dealer_stands_on_soft_17, rules.allow_surrender, seq![], s)
    }
}

/// A vector of `n` probabilities whose total is at most one.
pub open spec fn is_dist(v: Seq<int>, n: int) -> bool {
    &&& v.len() == n
    &&& forall|i: int| 0 <= i < n ==> v[i] >= 0
    &&& vec_sum(v) <= PROB_ONE
}

proof fn lemma_floor_div(a: int, t: int)
    requires
        a >= 0,
        t > 0,
    ensures
        0 <= a / t,
        t * (a / t) <= a,
        a - t * (a / t) < t,
{
    lemma_fundamental_div_mod(a, t);
    lemma_mod_pos_bound(a, t);
    lemma_div_pos_is_pos(a, t);
}

pub proof fn lemma_vec_sum_lin(u: Seq<int>, v: Seq<int>, c: int)
    requires
        u.len() == v.len(),
    ensures
        vec_sum(Seq::new(u.len(), |i: int| u[i] + c * v[i])) == vec_sum(u) + c * vec_sum(v),
    decreases u.len(),
{
    let w = Seq::new(u.len(), |i: int| u[i] + c * v[i]);
    if u.len() > 0 {
        let ud = u.drop_last();
        let vd = v.drop_last();
        lemma_vec_sum_lin(ud, vd, c);
        assert(w.drop_last() =~= Seq::new(ud.len(), |i: int| ud[i] + c * vd[i]));
        let a = vec_sum(vd);
        let b = v.last();
        assert(c * a + c * b == c * (a + b)) by (nonlinear_arith);
    }
}

pub proof fn lemma_vec_sum_zeros(n: int)
    requires
        n >= 0,
    ensures
        vec_sum(zeros(n)) == 0,
    decreases n,
{
    if n > 0 {
        lemma_vec_sum_zeros(n - 1);
        assert(zeros(n).drop_last() =~= zeros(n - 1));
    }
}

/// Each entry divided by `t`, rounded down.
pub open spec fn floor_div(a: Seq<int>, t: int) -> Seq<int> {
    Seq::new(a.len(), |i: int| a[i] / t)
}

pub proof fn lemma_vec_sum_floor(a: Seq<int>, t: int)
    requires
        t > 0,
        forall|i: int| 0 <= i < a.len() ==> a[i] >= 0,
    ensures
        t * vec_sum(floor_div(a, t)) <= vec_sum(a),
        vec_sum(a) - t * vec_sum(floor_div(a, t)) <= a.len() * (t - 1),
        forall|i: int| 0 <= i < a.len() ==> 0 <= #[trigger] floor_div(a, t)[i],
    decreases a.len(),
{
    let q = floor_div(a, t);
    assert forall|i: int| 0 <= i < a.len() implies 0 <= #[trigger] q[i] by {
        lemma_floor_div(a[i], t);
    }
    if a.len() > 0 {
        let ad = a.drop_last();
        lemma_vec_sum_floor(ad, t);
        assert(q.drop_last() =~= floor_div(ad, t));
        lemma_floor_div(a.last(), t);
        let x = vec_sum(q.drop_last());
        let y = a.last() / t;
        assert(t * (x + y) == t * x + t * y) by (nonlinear_arith);
        assert(ad.len() * (t - 1) + (t - 1) == a.len() * (t - 1)) by (nonlinear_arith)
            requires
                ad.len() + 1 == a.len(),
        ;
    }
}

/// The vector of partial weighted sums over the first `n` ranks.
pub open spec fn partial(s: Seq<u32>, f: spec_fn(int) -> Seq<int>, width: int, n: int) -> Seq<int> {
    Seq::new(width as nat, |i: int| weighted(s, column(f, i), n))
}

proof fn lemma_partial_mass(s: Seq<u32>, f: spec_fn(int) -> Seq<int>, width: int, n: int)
    requires
        0 <= n <= s.len(),
        width >= 0,
        forall|r: int| 0 <= r < n && s[r] > 0 ==> is_dist(#[trigger] f(r), width),
    ensures
        vec_sum(partial(s, f, width, n)) <= PROB_ONE * seq_sum(s.take(n)),
        forall|i: int| 0 <= i < width ==> 0 <= #[trigger] partial(s, f, width, n)[i],
    decreases n,
{
    let a = partial(s, f, width, n);
    if n == 0 {
        assert(a =~= zeros(width));
        lemma_vec_sum_zeros(width);
    } else {
        lemma_partial_mass(s, f, width, n - 1);
        let prev = partial(s, f, width, n - 1);
        let k = s[n - 1] as int;
        assert(s.take(n).drop_last() =~= s.take(n - 1));
        let p = seq_sum(s.take(n - 1)) as int;
        if k == 0 {
            assert(a =~= prev);
            assert(p == seq_sum(s.take(n)));
        } else {
            let v = f(n - 1);
            assert(a =~= Seq::new(prev.len(), |i: int| prev[i] + k * v[i]));
            lemma_vec_sum_lin(prev, v, k);
            let m = vec_sum(v);
            assert(k * m <= k * PROB_ONE) by (nonlinear_arith)
                requires
                    k > 0,
                    m <= PROB_ONE,
            ;
            assert(PROB_ONE * p + k * PROB_ONE == PROB_ONE * (p + k)) by (nonlinear_arith);
            assert forall|i: int| 0 <= i < width implies 0 <= #[trigger] a[i] by {
                assert(a[i] == prev[i] + k * v[i]);
                assert(0 <= k * v[i]) by (nonlinear_arith)
                    requires
                        k > 0,
                        v[i] >= 0,
                ;
            }
        }
    }
}

pub proof fn lemma_mix_dist(s: Seq<u32>, f: spec_fn(int) -> Seq<int>, width: int)
    requires
        s.len() == 11,
        width >= 0,
        forall|r: int| 0 <= r < 11 && s[r] > 0 ==> is_dist(#[trigger] f(r), width),
    ensures
        is_dist(mix(s, f, width), width),
{
    let t = seq_sum(s) as int;
    if t == 0 {
        lemma_vec_sum_zeros(width);
    } else {
        lemma_partial_mass(s, f, width, 11);
        assert(s.take(11) =~= s);
        let a = partial(s, f, width, 11);
        lemma_vec_sum_floor(a, t);
        let m = mix(s, f, width);
        assert(m =~= floor_div(a, t));
        let x = vec_sum(m);
        assert(x <= PROB_ONE) by (nonlinear_arith)
            requires
                t * x <= vec_sum(a),
                vec_sum(a) <= PROB_ONE * t,
                t > 0,
        ;
    }
}

pub proof fn lemma_vec_sum_6(v: Seq<int>)
    requires
        v.len() == 6,
    ensures
        vec_sum(v) == v[0] + v[1] + v[2] + v[3] + v[4] + v[5],
{
    reveal_with_fuel(vec_sum, 7);
}

pub proof fn lemma_vec_sum_11(v: Seq<int>)
    requires
        v.len() == 11,
    ensures
        vec_sum(v) == v[0] + v[1] + v[2] + v[3] + v[4] + v[5] + v[6] + v[7] + v[8] + v[9] + v[10],
{
    reveal_with_fuel(vec_sum, 12);
}

pub proof fn lemma_unit_dist(n: int, k: int)
    requires
        0 <= k < n,
    ensures
        is_dist(unit(n, k), n),
        vec_sum(unit(n, k)) == PROB_ONE,
    decreases n,
{
    let u = unit(n, k);
    if k == n - 1 {
        assert(u.drop_last() =~= zeros(n - 1));
        lemma_vec_sum_zeros(n - 1);
    } else {
        lemma_unit_dist(n - 1, k);
        assert(u.drop_last() =~= unit(n - 1, k));
    }
}

pub proof fn lemma_zeros_dist(n: int)
    requires
        n >= 0,
    ensures
        is_dist(zeros(n), n),
{
    lemma_vec_sum_zeros(n);
}

pub proof fn lemma_stand_dist(pt: int, dd: Seq<int>)
    requires
        is_dist(dd, 6),
    ensures
        is_dist(stand_outcome(pt, dd), 11),
        vec_sum(stand_outcome(pt, dd)) == vec_sum(dd),
{
    lemma_vec_sum_6(dd);
    lemma_vec_sum_11(stand_outcome(pt, dd));
}

pub proof fn lemma_doubled_dist(v: Seq<int>)
    requires
        is_dist(v, 11),
    ensures
        is_dist(doubled(v), 11),
        vec_sum(doubled(v)) == vec_sum(v),
{
    lemma_vec_sum_11(v);
    lemma_vec_sum_11(doubled(v));
}

pub proof fn lemma_dealer_dist(s17: bool, total: int, soft: bool, s: Seq<u32>)
    requires
        s.len() == 11,
    ensures
        is_dist(dealer_dist(s17, total, soft, s), 6),
    decreases seq_sum(s),
{
    if !dealer_must_draw(total, soft, s17) {
        if 17 <= total <= 21 {
            lemma_unit_dist(6, total - 17);
        } else {
            lemma_unit_dist(6, 5);
        }
    } else {
        let f = dealer_draws(s17, total, soft, s);
        assert forall|r: int| 0 <= r < 11 && s[r] > 0 implies is_dist(#[trigger] f(r), 6) by {
            let next = score_add(total, soft, r);
            if next.0 > 21 {
                lemma_unit_dist(6, 5);
            } else {
                lemma_dec_sum(s, r);
                lemma_dealer_dist(s17, next.0, next.1, dec(s, r));
            }
        }
        lemma_mix_dist(s, f, 6);
    }
}

#[verifier::spinoff_prover]
pub proof fn lemma_play_dist(
    s17: bool,
    surrender: bool,
    total: int,
    soft: bool,
    count: int,
    pair: int,
    dealer_total: int,
    dealer_soft: bool,
    up: int,
    s: Seq<u32>,
)
    requires
        s.len() == 11,
    ensures
        is_dist(play(s17, surrender, total, soft, count, pair, dealer_total, dealer_soft, up, s), 11),
    decreases seq_sum(s),
{
    if total > 21 {
        lemma_unit_dist(11, DEALER_WIN as int);
    } else {
        match decide(surrender, total, soft, count, pair, up) {
            Action::Hit => {
                let f = hit_draws(s17, surrender, total, soft, count, dealer_total, dealer_soft, up, s);
                assert forall|r: int| 0 <= r < 11 && s[r] > 0 implies is_dist(#[trigger] f(r), 11) by {
                    let next = score_add(total, soft, r);
                    if next.0 > 21 {
                        lemma_unit_dist(11, DEALER_WIN as int);
                    } else {
                        lemma_dec_sum(s, r);
                        lemma_play_dist(
                            s17,
                            surrender,
                            next.0,
                            next.1,
                            count + 1,
                            0,
                            dealer_total,
                            dealer_soft,
                            up,
                            dec(s, r),
                        );
                    }
                }
                lemma_mix_dist(s, f, 11);
            },
            Action::Double => {
                let f = double_draws(s17, surrender, total, soft, dealer_total, dealer_soft, s);
                assert forall|r: int| 0 <= r < 11 && s[r] > 0 implies is_dist(#[trigger] f(r), 11) by {
                    let next = score_add(total, soft, r);
                    if next.0 > 21 {
                        lemma_unit_dist(11, DEALER_WIN as int);
                    } else {
                        lemma_dealer_dist(s17, dealer_total, dealer_soft, dec(s, r));
                        lemma_stand_dist(next.0, dealer_dist(s17, dealer_total, dealer_soft, dec(s, r)));
                    }
                }
                lemma_mix_dist(s, f, 11);
                lemma_doubled_dist(mix(s, f, 11));
            },
            Action::Surrender => {
                lemma_unit_dist(11, SURRENDER as int);
            },
            _ => {
                lemma_dealer_dist(s17, dealer_total, dealer_soft, s);
                lemma_stand_dist(total, dealer_dist(s17, dealer_total, dealer_soft, s));
            },
        }
    }
}

pub proof fn lemma_deal_dist(s17: bool, surrender: bool, drawn: Seq<int>, s: Seq<u32>)
    requires
        s.len() == 11,
    ensures
        is_dist(deal(s17, surrender, drawn, s), 11),
    decreases seq_sum(s),
{
    if drawn.len() >= 4 {
        let p = start_score(drawn[0], drawn[2]);
        let d = start_score(drawn[1], drawn[3]);
        if p.0 == 21 && d.0 == 21 {
            lemma_unit_dist(11, PUSH as int);
        } else if p.0 == 21 {
            lemma_unit_dist(11, PLAYER_BLACKJACK as int);
        } else if d.0 == 21 {
            lemma_unit_dist(11, DEALER_BLACKJACK as int);
        } else {
            lemma_play_dist(s17, surrender, p.0, p.1, 2, pair_of(drawn[0], drawn[2]), d.0, d.1, up_value(drawn[1]), s);
        }
    } else {
        let f = deal_draws(s17, surrender, drawn, s);
        assert forall|r: int| 0 <= r < 11 && s[r] > 0 implies is_dist(#[trigger] f(r), 11) by {
            lemma_dec_sum(s, r);
            lemma_deal_dist(s17, surrender, drawn.push(r), dec(s, r));
        }
        lemma_mix_dist(s, f, 11);
    }
}

pub proof fn lemma_table_dist(rules: GameRules, s: Seq<u32>)
    requires
        s.len() == 11,
    ensures
        is_dist(table_outcome(rules, s), 11),
{
    if seq_sum(s) < 4 {
        lemma_zeros_dist(11);
    } else {
        lemma_deal_dist(rules.dealer_stands_on_soft_17, rules.allow_surrender, seq![], s);
    }
}

/// One more rank of a weighted sum: the running sums stay exact and bounded.
#[verifier::spinoff_prover]
pub proof fn lemma_mix_step(s: Seq<u32>, f: spec_fn(int) -> Seq<int>, width: int, r: int, before: Seq<int>)
    requires
        s.len() == 11,
        0 <= r < 11,
        before.len() == width,
        forall|i: int|
            0 <= i < width ==> before[i] == weighted(s, column(f, i), r) && 0 <= before[i] <= PROB_ONE
                * seq_sum(s.take(r)),
        s[r] > 0 ==> is_dist(f(r), width),
    ensures
        forall|i: int|
            0 <= i < width ==> #[trigger] weighted(s, column(f, i), r + 1) == before[i] + s[r] * f(r)[i]
                && 0 <= before[i] + s[r] * f(r)[i] <= PROB_ONE * seq_sum(s.take(r + 1)),
        PROB_ONE * seq_sum(s.take(r + 1)) <= PROB_ONE * (11 * 0xffff_ffffint),
{
    assert(s.take(r + 1).drop_last() =~= s.take(r));
    crate::types::lemma_seq_sum_bound(s.take(r + 1));
    let k = s[r] as int;
    let p = seq_sum(s.take(r)) as int;
    assert(PROB_ONE * p + k * PROB_ONE == PROB_ONE * (p + k)) by (nonlinear_arith);
    assert(PROB_ONE * (p + k) <= PROB_ONE * (11 * 0xffff_ffffint)) by (nonlinear_arith)
        requires
            p + k <= (r + 1) * 0xffff_ffffint,
            r < 11,
    ;
    assert forall|i: int| 0 <= i < width implies #[trigger] weighted(s, column(f, i), r + 1)
        == before[i] + s[r] * f(r)[i] && 0 <= before[i] + s[r] * f(r)[i] <= PROB_ONE * seq_sum(
        s.take(r + 1),
    ) by {
        assert(column(f, i)(r) == f(r)[i]);
        if k > 0 {
            let x = f(r)[i];
            crate::types::lemma_vec_sum_entry(f(r));
            assert(0 <= k * x <= k * PROB_ONE) by (nonlinear_arith)
                requires
                    k > 0,
                    0 <= x <= PROB_ONE,
            ;
        } else {
            assert(k * f(r)[i] == 0);
        }
    }
}

/// The children of a dealer draw are distributions.
pub proof fn lemma_dealer_draws_dist(s17: bool, total: int, soft: bool, s: Seq<u32>)
    requires
        s.len() == 11,
    ensures
        forall|r: int|
            0 <= r < 11 && s[r] > 0 ==> is_dist(#[trigger] dealer_draws(s17, total, soft, s)(r), 6),
{
    let f = dealer_draws(s17, total, soft, s);
    assert forall|r: int| 0 <= r < 11 && s[r] > 0 implies is_dist(#[trigger] f(r), 6) by {
        let next = score_add(total, soft, r);
        if next.0 > 21 {
            lemma_unit_dist(6, 5);
        } else {
            lemma_dealer_dist(s17, next.0, next.1, dec(s, r));
        }
    }
}

/// The children of a hit are distributions.
pub proof fn lemma_hit_draws_dist(
    s17: bool,
    surrender: bool,
    total: int,
    soft: bool,
    count: int,
    dealer_total: int,
    dealer_soft: bool,
    up: int,
    s: Seq<u32>,
)
    requires
        s.len() == 11,
    ensures
        forall|r: int|
            0 <= r < 11 && s[r] > 0 ==> is_dist(
                #[trigger] hit_draws(s17, surrender, total, soft, count, dealer_total, dealer_soft, up, s)(r),
                11,
            ),
{
    let f = hit_draws(s17, surrender, total, soft, count, dealer_total, dealer_soft, up, s);
    assert forall|r: int| 0 <= r < 11 && s[r] > 0 implies is_dist(#[trigger] f(r), 11) by {
        let next = score_add(total, soft, r);
        if next.0 > 21 {
            lemma_unit_dist(11, DEALER_WIN as int);
        } else {
            lemma_play_dist(s17, surrender, next.0, next.1, count + 1, 0, dealer_total, dealer_soft, up, dec(s, r));
        }
    }
}

/// The children of a double are distributions.
pub proof fn lemma_double_draws_dist(
    s17: bool,
    surrender: bool,
    total: int,
    soft: bool,
    dealer_total: int,
    dealer_soft: bool,
    s: Seq<u32>,
)
    requires
        s.len() == 11,
    ensures
        forall|r: int|
            0 <= r < 11 && s[r] > 0 ==> is_dist(
                #[trigger] double_draws(s17, surrender, total, soft, dealer_total, dealer_soft, s)(r),
                11,
            ),
{
    let f = double_draws(s17, surrender, total, soft, dealer_total, dealer_soft, s);
    assert forall|r: int| 0 <= r < 11 && s[r] > 0 implies is_dist(#[trigger] f(r), 11) by {
        let next = score_add(total, soft, r);
        if next.0 > 21 {
            lemma_unit_dist(11, DEALER_WIN as int);
        } else {
            lemma_dealer_dist(s17, dealer_total, dealer_soft, dec(s, r));
            lemma_stand_dist(next.0, dealer_dist(s17, dealer_total, dealer_soft, dec(s, r)));
        }
    }
}

/// The children of a deal are distributions.
pub proof fn lemma_deal_draws_dist(s17: bool, surrender: bool, drawn: Seq<int>, s: Seq<u32>)
    requires
        s.len() == 11,
    ensures
        forall|r: int| 0 <= r < 11 && s[r] > 0 ==> is_dist(#[trigger] deal_draws(s17, surrender, drawn, s)(r), 11),
{
    let f = deal_draws(s17, surrender, drawn, s);
    assert forall|r: int| 0 <= r < 11 && s[r] > 0 implies is_dist(#[trigger] f(r), 11) by {
        lemma_deal_dist(s17, surrender, drawn.push(r), dec(s, r));
    }
}

pub proof fn lemma_mix_entry_zero(s: Seq<u32>, f: spec_fn(int) -> Seq<int>, width: int, k: int)
    requires
        s.len() == 11,
        0 <= k < width,
        forall|r: int| 0 <= r < 11 && s[r] > 0 ==> #[trigger] f(r)[k] == 0,
    ensures
        mix(s, f, width)[k] == 0,
{
    assert forall|n: int| 0 <= n <= 11 implies #[trigger] weighted(s, column(f, k), n) == 0 by {
        lemma_weighted_zero(s, f, k, n);
    }
    if seq_sum(s) > 0 {
        assert(weighted(s, column(f, k), 11) == 0);
    }
}

proof fn lemma_weighted_zero(s: Seq<u32>, f: spec_fn(int) -> Seq<int>, k: int, n: int)
    requires
        s.len() == 11,
        0 <= n <= 11,
        forall|r: int| 0 <= r < 11 && s[r] > 0 ==> #[trigger] f(r)[k] == 0,
    ensures
        weighted(s, column(f, k), n) == 0,
    decreases n,
{
    if n > 0 {
        lemma_weighted_zero(s, f, k, n - 1);
        assert(column(f, k)(n - 1) == f(n - 1)[k]);
        if s[n - 1] > 0 {
            assert(f(n - 1)[k] == 0);
        }
        assert(s[n - 1] * column(f, k)(n - 1) == 0);
    }
}

/// The player's turn never yields a natural, and never a surrender when
/// surrender is not open.
#[verifier::spinoff_prover]
pub proof fn lemma_play_entry_zero(
    s17: bool,
    surrender: bool,
    total: int,
    soft: bool,
    count: int,
    pair: int,
    dealer_total: int,
    dealer_soft: bool,
    up: int,
    s: Seq<u32>,
    k: int,
)
    requires
        s.len() == 11,
        k == PLAYER_BLACKJACK || k == DEALER_BLACKJACK || k == PLAYER_BLACKJACK + 5 || k
            == DEALER_BLACKJACK + 5 || (k == SURRENDER && !surrender),
    ensures
        play(s17, surrender, total, soft, count, pair, dealer_total, dealer_soft, up, s)[k] == 0,
    decreases seq_sum(s),
{
    if total <= 21 {
        match decide(surrender, total, soft, count, pair, up) {
            Action::Hit => {
                let f = hit_draws(s17, surrender, total, soft, count, dealer_total, dealer_soft, up, s);
                assert forall|r: int| 0 <= r < 11 && s[r] > 0 implies #[trigger] f(r)[k] == 0 by {
                    let next = score_add(total, soft, r);
                    if next.0 <= 21 {
                        lemma_dec_sum(s, r);
                        lemma_play_entry_zero(
                            s17,
                            surrender,
                            next.0,
                            next.1,
                            count + 1,
                            0,
                            dealer_total,
                            dealer_soft,
                            up,
                            dec(s, r),
                            k,
                        );
                    }
                }
                lemma_mix_entry_zero(s, f, 11, k);
            },
            Action::Double => {
                let f = double_draws(s17, surrender, total, soft, dealer_total, dealer_soft, s);
                assert forall|r: int, j: int|
                    0 <= r < 11 && s[r] > 0 && 3 <= j < 11 implies #[trigger] f(r)[j] == 0 by {}
                lemma_mix_entry_zero(s, f, 11, 3);
                lemma_mix_entry_zero(s, f, 11, 4);
                lemma_mix_entry_zero(s, f, 11, 8);
                lemma_mix_entry_zero(s, f, 11, 9);
                lemma_mix_entry_zero(s, f, 11, 10);
            },
            _ => {},
        }
    }
}

/// Rank `r` is absent from shoes without aces (`no_aces`) or without
/// ten-valued cards (otherwise).
pub open spec fn rank_allowed(no_aces: bool, r: int) -> bool {
    if no_aces {
        1 <= r <= 10
    } else {
        0 <= r <= 8
    }
}

/// No natural arises from a shoe without aces, nor from one without
/// ten-valued cards.
pub proof fn lemma_deal_no_natural(
    s17: bool,
    surrender: bool,
    no_aces: bool,
    drawn: Seq<int>,
    s: Seq<u32>,
    k: int,
)
    requires
        s.len() == 11,
        forall|r: int| 0 <= r < 11 && !rank_allowed(no_aces, r) ==> #[trigger] s[r] == 0,
        forall|j: int| 0 <= j < drawn.len() ==> rank_allowed(no_aces, #[trigger] drawn[j]),
        k == PLAYER_BLACKJACK || k == DEALER_BLACKJACK || k == PLAYER_BLACKJACK + 5 || k
            == DEALER_BLACKJACK + 5,
    ensures
        deal(s17, surrender, drawn, s)[k] == 0,
    decreases seq_sum(s),
{
    if drawn.len() >= 4 {
        assert(rank_allowed(no_aces, drawn[0]) && rank_allowed(no_aces, drawn[1]) && rank_allowed(
            no_aces,
            drawn[2],
        ) && rank_allowed(no_aces, drawn[3]));
        lemma_play_entry_zero(
            s17,
            surrender,
            start_score(drawn[0], drawn[2]).0,
            start_score(drawn[0], drawn[2]).1,
            2,
            pair_of(drawn[0], drawn[2]),
            start_score(drawn[1], drawn[3]).0,
            start_score(drawn[1], drawn[3]).1,
            up_value(drawn[1]),
            s,
            k,
        );
    } else {
        let f = deal_draws(s17, surrender, drawn, s);
        assert forall|r: int| 0 <= r < 11 && s[r] > 0 implies #[trigger] f(r)[k] == 0 by {
            lemma_dec_sum(s, r);
            let d = drawn.push(r);
            assert(rank_allowed(no_aces, r));
            assert forall|j: int| 0 <= j < d.len() implies rank_allowed(no_aces, #[trigger] d[j]) by {
                if j < drawn.len() {
                    assert(d[j] == drawn[j]);
                }
            }
            assert forall|x: int| 0 <= x < 11 && !rank_allowed(no_aces, x) implies #[trigger] dec(s, r)[x]
                == 0 by {}
            lemma_deal_no_natural(s17, surrender, no_aces, d, dec(s, r), k);
        }
        lemma_mix_entry_zero(s, f, 11, k);
    }
}

/// Without surrender on offer, no round ends in surrender.
pub proof fn lemma_deal_no_surrender(s17: bool, drawn: Seq<int>, s: Seq<u32>)
    requires
        s.len() == 11,
    ensures
        deal(s17, false, drawn, s)[SURRENDER as int] == 0,
    decreases seq_sum(s),
{
    if drawn.len() >= 4 {
        let p = start_score(drawn[0], drawn[2]);
        let d = start_score(drawn[1], drawn[3]);
        if !(p.0 == 21 || d.0 == 21) {
            lemma_play_entry_zero(
                s17,
                false,
                p.0,
                p.1,
                2,
                pair_of(drawn[0], drawn[2]),
                d.0,
                d.1,
                up_value(drawn[1]),
                s,
                SURRENDER as int,
            );
        }
    } else {
        let f = deal_draws(s17, false, drawn, s);
        assert forall|r: int| 0 <= r < 11 && s[r] > 0 implies #[trigger] f(r)[SURRENDER as int] == 0 by {
            lemma_dec_sum(s, r);
            lemma_deal_no_surrender(s17, drawn.push(r), dec(s, r));
        }
        lemma_mix_entry_zero(s, f, 11, SURRENDER as int);
    }
}

/// Cards a dealer may still need to reach 17.
pub open spec fn dealer_need(total: int, soft: bool) -> int {
    if hard_of(total, soft) >= 17 {
        0
    } else {
        17 - hard_of(total, soft)
    }
}

/// A hand's sum with every ace counted as one.
pub open spec fn hard_of(total: int, soft: bool) -> int {
    if soft {
        total - 10
    } else {
        total
    }
}

proof fn lemma_partial_mass_lower(s: Seq<u32>, f: spec_fn(int) -> Seq<int>, width: int, n: int, lo: int)
    requires
        0 <= n <= s.len(),
        width >= 0,
        forall|r: int| 0 <= r < n && s[r] > 0 ==> (#[trigger] f(r)).len() == width && vec_sum(f(r)) >= lo,
    ensures
        vec_sum(partial(s, f, width, n)) >= lo * seq_sum(s.take(n)),
    decreases n,
{
    let a = partial(s, f, width, n);
    if n == 0 {
        assert(a =~= zeros(width));
        lemma_vec_sum_zeros(width);
        assert(s.take(0).len() == 0);
        assert(seq_sum(s.take(0)) == 0);
    } else {
        lemma_partial_mass_lower(s, f, width, n - 1, lo);
        let prev = partial(s, f, width, n - 1);
        let k = s[n - 1] as int;
        assert(s.take(n).drop_last() =~= s.take(n - 1));
        let p = seq_sum(s.take(n - 1)) as int;
        assert(seq_sum(s.take(n)) == p + k);
        if k == 0 {
            assert(a =~= prev);
        } else {
            let v = f(n - 1);
            assert(a =~= Seq::new(prev.len(), |i: int| prev[i] + k * v[i]));
            lemma_vec_sum_lin(prev, v, k);
            let m = vec_sum(v);
            assert(k * m >= k * lo) by (nonlinear_arith)
                requires
                    k > 0,
                    m >= lo,
            ;
            assert(lo * p + k * lo == lo * (p + k)) by (nonlinear_arith);
        }
    }
}

/// A weighted average of vectors each of total at least `lo` has total at least
/// `lo - 11`: rounding down loses less than one unit per entry.
pub proof fn lemma_mix_mass_lower(s: Seq<u32>, f: spec_fn(int) -> Seq<int>, width: int, lo: int)
    requires
        s.len() == 11,
        seq_sum(s) > 0,
        0 <= width <= 11,
        forall|r: int| 0 <= r < 11 && s[r] > 0 ==> is_dist(#[trigger] f(r), width) && vec_sum(f(r)) >= lo,
    ensures
        vec_sum(mix(s, f, width)) >= lo - 11,
{
    let t = seq_sum(s) as int;
    lemma_partial_mass(s, f, width, 11);
    lemma_partial_mass_lower(s, f, width, 11, lo);
    assert(s.take(11) =~= s);
    let a = partial(s, f, width, 11);
    lemma_vec_sum_floor(a, t);
    let m = mix(s, f, width);
    assert(m =~= floor_div(a, t));
    let x = vec_sum(m);
    assert(x >= lo - 11) by (nonlinear_arith)
        requires
            vec_sum(a) - t * x <= width * (t - 1),
            vec_sum(a) >= lo * t,
            t > 0,
            0 <= width <= 11,
    ;
}

/// A dealer who can draw to 17 without emptying the shoe ends somewhere:
/// the distribution misses at most 11 units per card in the shoe.
pub proof fn lemma_dealer_mass(s17: bool, total: int, soft: bool, s: Seq<u32>)
    requires
        s.len() == 11,
        seq_sum(s) + hard_of(total, soft) >= 17,
    ensures
        vec_sum(dealer_dist(s17, total, soft, s)) >= PROB_ONE - 11 * seq_sum(s),
    decreases seq_sum(s),
{
    let t = seq_sum(s) as int;
    if !dealer_must_draw(total, soft, s17) {
        if 17 <= total <= 21 {
            lemma_unit_dist(6, total - 17);
        } else {
            lemma_unit_dist(6, 5);
        }
    } else {
        let f = dealer_draws(s17, total, soft, s);
        let lo = PROB_ONE - 11 * (t - 1);
        assert forall|r: int| 0 <= r < 11 && s[r] > 0 implies is_dist(#[trigger] f(r), 6) && vec_sum(f(r))
            >= lo by {
            let next = score_add(total, soft, r);
            lemma_dec_sum(s, r);
            if next.0 > 21 {
                lemma_unit_dist(6, 5);
            } else {
                assert(hard_of(next.0, next.1) == hard_of(total, soft) + bucket_points(r));
                lemma_dealer_dist(s17, next.0, next.1, dec(s, r));
                lemma_dealer_mass(s17, next.0, next.1, dec(s, r));
            }
        }
        lemma_mix_mass_lower(s, f, 6, lo);
    }
}

/// The player's turn loses no mass while the shoe holds enough cards for the
/// player to reach eleven cards and the dealer to reach 17.
#[verifier::spinoff_prover]
pub proof fn lemma_play_mass(
    s17: bool,
    surrender: bool,
    total: int,
    soft: bool,
    count: int,
    pair: int,
    dealer_total: int,
    dealer_soft: bool,
    up: int,
    s: Seq<u32>,
)
    requires
        s.len() == 11,
        count <= 11,
        seq_sum(s) >= (11 - count) + dealer_need(dealer_total, dealer_soft),
    ensures
        vec_sum(play(s17, surrender, total, soft, count, pair, dealer_total, dealer_soft, up, s))
            >= PROB_ONE - 11 * seq_sum(s),
    decreases seq_sum(s),
{
    let t = seq_sum(s) as int;
    let lo = PROB_ONE - 11 * (t - 1);
    if total > 21 {
        lemma_unit_dist(11, DEALER_WIN as int);
    } else {
        match decide(surrender, total, soft, count, pair, up) {
            Action::Hit => {
                assert(count <= 10);
                let f = hit_draws(s17, surrender, total, soft, count, dealer_total, dealer_soft, up, s);
                assert forall|r: int| 0 <= r < 11 && s[r] > 0 implies is_dist(#[trigger] f(r), 11)
                    && vec_sum(f(r)) >= lo by {
                    let next = score_add(total, soft, r);
                    lemma_dec_sum(s, r);
                    if next.0 > 21 {
                        lemma_unit_dist(11, DEALER_WIN as int);
                    } else {
                        lemma_play_dist(
                            s17,
                            surrender,
                            next.0,
                            next.1,
                            count + 1,
                            0,
                            dealer_total,
                            dealer_soft,
                            up,
                            dec(s, r),
                        );
                        lemma_play_mass(
                            s17,
                            surrender,
                            next.0,
                            next.1,
                            count + 1,
                            0,
                            dealer_total,
                            dealer_soft,
                            up,
                            dec(s, r),
                        );
                    }
                }
                lemma_mix_mass_lower(s, f, 11, lo);
            },
            Action::Double => {
                assert(count == 2);
                let f = double_draws(s17, surrender, total, soft, dealer_total, dealer_soft, s);
                assert forall|r: int| 0 <= r < 11 && s[r] > 0 implies is_dist(#[trigger] f(r), 11)
                    && vec_sum(f(r)) >= lo by {
                    let next = score_add(total, soft, r);
                    lemma_dec_sum(s, r);
                    if next.0 > 21 {
                        lemma_unit_dist(11, DEALER_WIN as int);
                    } else {
                        let dd = dealer_dist(s17, dealer_total, dealer_soft, dec(s, r));
                        lemma_dealer_dist(s17, dealer_total, dealer_soft, dec(s, r));
                        lemma_dealer_mass(s17, dealer_total, dealer_soft, dec(s, r));
                        lemma_stand_dist(next.0, dd);
                    }
                }
                lemma_mix_mass_lower(s, f, 11, lo);
                lemma_double_draws_dist(s17, surrender, total, soft, dealer_total, dealer_soft, s);
                lemma_mix_dist(s, f, 11);
                lemma_doubled_dist(mix(s, f, 11));
            },
            Action::Surrender => {
                lemma_unit_dist(11, SURRENDER as int);
            },
            _ => {
                lemma_dealer_dist(s17, dealer_total, dealer_soft, s);
                lemma_dealer_mass(s17, dealer_total, dealer_soft, s);
                lemma_stand_dist(total, dealer_dist(s17, dealer_total, dealer_soft, s));
            },
        }
    }
}

/// A deal loses no mass while the shoe holds enough cards for the four first
/// cards and a full round.
#[verifier::spinoff_prover]
pub proof fn lemma_deal_mass(s17: bool, surrender: bool, drawn: Seq<int>, s: Seq<u32>)
    requires
        s.len() == 11,
        drawn.len() <= 4,
        forall|j: int| 0 <= j < drawn.len() ==> 0 <= #[trigger] drawn[j] < 11,
        seq_sum(s) + drawn.len() >= 28,
    ensures
        vec_sum(deal(s17, surrender, drawn, s)) >= PROB_ONE - 11 * seq_sum(s),
    decreases seq_sum(s),
{
    let t = seq_sum(s) as int;
    if drawn.len() >= 4 {
        let p = start_score(drawn[0], drawn[2]);
        let d = start_score(drawn[1], drawn[3]);
        assert(0 <= drawn[1] < 11 && 0 <= drawn[3] < 11);
        assert(hard_of(d.0, d.1) == bucket_points(drawn[1]) + bucket_points(drawn[3]));
        if p.0 == 21 && d.0 == 21 {
            lemma_unit_dist(11, PUSH as int);
        } else if p.0 == 21 {
            lemma_unit_dist(11, PLAYER_BLACKJACK as int);
        } else if d.0 == 21 {
            lemma_unit_dist(11, DEALER_BLACKJACK as int);
        } else {
            lemma_play_mass(s17, surrender, p.0, p.1, 2, pair_of(drawn[0], drawn[2]), d.0, d.1, up_value(drawn[1]), s);
        }
    } else {
        let f = deal_draws(s17, surrender, drawn, s);
        let lo = PROB_ONE - 11 * (t - 1);
        assert forall|r: int| 0 <= r < 11 && s[r] > 0 implies is_dist(#[trigger] f(r), 11) && vec_sum(f(r))
            >= lo by {
            lemma_dec_sum(s, r);
            let d = drawn.push(r);
            assert forall|j: int| 0 <= j < d.len() implies 0 <= #[trigger] d[j] < 11 by {
                if j < drawn.len() {
                    assert(d[j] == drawn[j]);
                }
            }
            lemma_deal_dist(s17, surrender, d, dec(s, r));
            lemma_deal_mass(s17, surrender, d, dec(s, r));
        }
        lemma_mix_mass_lower(s, f, 11, lo);
    }
}

proof fn lemma_weighted_ext(s: Seq<u32>, f: spec_fn(int) -> Seq<int>, g: spec_fn(int) -> Seq<int>, i: int, n: int)
    requires
        0 <= n <= s.len(),
        forall|r: int| 0 <= r < s.len() && s[r] > 0 ==> #[trigger] f(r) == g(r),
    ensures
        weighted(s, column(f, i), n) == weighted(s, column(g, i), n),
    decreases n,
{
    if n > 0 {
        lemma_weighted_ext(s, f, g, i, n - 1);
        assert(column(f, i)(n - 1) == f(n - 1)[i]);
        assert(column(g, i)(n - 1) == g(n - 1)[i]);
        if s[n - 1] > 0 {
            assert(f(n - 1) == g(n - 1));
        }
    }
}

/// Families that agree on every rank in the shoe mix to the same vector.
pub proof fn lemma_mix_ext(s: Seq<u32>, f: spec_fn(int) -> Seq<int>, g: spec_fn(int) -> Seq<int>, width: int)
    requires
        s.len() == 11,
        width >= 0,
        forall|r: int| 0 <= r < 11 && s[r] > 0 ==> #[trigger] f(r) == g(r),
    ensures
        mix(s, f, width) == mix(s, g, width),
{
    assert forall|i: int| 0 <= i < width implies weighted(s, column(f, i), 11) == weighted(s, column(g, i), 11) by {
        lemma_weighted_ext(s, f, g, i, 11);
    }
    assert(mix(s, f, width) =~= mix(s, g, width));
}

/// Where the first decision is not a surrender, whether surrender is on offer
/// changes nothing: later decisions are on three or more cards.
#[verifier::spinoff_prover]
pub proof fn lemma_play_surrender_unused(
    s17: bool,
    total: int,
    soft: bool,
    count: int,
    pair: int,
    dealer_total: int,
    dealer_soft: bool,
    up: int,
    s: Seq<u32>,
)
    requires
        s.len() == 11,
        count == 2 ==> full_action(total, soft, count, pair, up) != Action::Surrender,
    ensures
        play(s17, true, total, soft, count, pair, dealer_total, dealer_soft, up, s) == play(
            s17,
            false,
            total,
            soft,
            count,
            pair,
            dealer_total,
            dealer_soft,
            up,
            s,
        ),
    decreases seq_sum(s),
{
    assert(decide(true, total, soft, count, pair, up) == decide(false, total, soft, count, pair, up));
    if total <= 21 {
        match decide(true, total, soft, count, pair, up) {
            Action::Hit => {
                let f = hit_draws(s17, true, total, soft, count, dealer_total, dealer_soft, up, s);
                let g = hit_draws(s17, false, total, soft, count, dealer_total, dealer_soft, up, s);
                assert forall|r: int| 0 <= r < 11 && s[r] > 0 implies #[trigger] f(r) == g(r) by {
                    let next = score_add(total, soft, r);
                    if next.0 <= 21 {
                        lemma_dec_sum(s, r);
                        lemma_play_surrender_unused(
                            s17,
                            next.0,
                            next.1,
                            count + 1,
                            0,
                            dealer_total,
                            dealer_soft,
                            up,
                            dec(s, r),
                        );
                    }
                }
                lemma_mix_ext(s, f, g, 11);
            },
            Action::Double => {
                let f = double_draws(s17, true, total, soft, dealer_total, dealer_soft, s);
                let g = double_draws(s17, false, total, soft, dealer_total, dealer_soft, s);
                assert forall|r: int| 0 <= r < 11 && s[r] > 0 implies #[trigger] f(r) == g(r) by {}
                lemma_mix_ext(s, f, g, 11);
            },
            _ => {},
        }
    }
}

/// The round dealt the ranks `a` (player), `b` (dealer up), `c` (player) and
/// `d` (dealer hole) has no natural and the player's first decision is a surrender.
pub open spec fn opening_surrenders(a: int, b: int, c: int, d: int) -> bool {
    let p = start_score(a, c);
    &&& p.0 != 21
    &&& start_score(b, d).0 != 21
    &&& full_action(p.0, p.1, 2, pair_of(a, c), up_value(b)) == Action::Surrender
}

/// No round that can be dealt from `s` (any four ranks present in the shoe)
/// opens with a surrender.
pub open spec fn never_surrenders(s: Seq<u32>) -> bool {
    forall|a: int, b: int, c: int, d: int|
        0 <= a < 11 && 0 <= b < 11 && 0 <= c < 11 && 0 <= d < 11 && s[a] > 0 && s[b] > 0 && s[c] > 0
            && s[d] > 0 ==> !#[trigger] opening_surrenders(a, b, c, d)
}

/// On a shoe where no first decision is a surrender, the round is the same
/// with surrender on offer or not.
#[verifier::spinoff_prover]
pub proof fn lemma_deal_surrender_unused(s17: bool, drawn: Seq<int>, s: Seq<u32>, s0: Seq<u32>)
    requires
        s.len() == 11,
        s0.len() == 11,
        never_surrenders(s0),
        forall|r: int| 0 <= r < 11 ==> s[r] <= #[trigger] s0[r],
        drawn.len() <= 4,
        forall|j: int| 0 <= j < drawn.len() ==> 0 <= #[trigger] drawn[j] < 11 && s0[drawn[j]] > 0,
    ensures
        deal(s17, true, drawn, s) == deal(s17, false, drawn, s),
    decreases seq_sum(s),
{
    if drawn.len() >= 4 {
        let p = start_score(drawn[0], drawn[2]);
        let d = start_score(drawn[1], drawn[3]);
        if !(p.0 == 21 || d.0 == 21) {
            assert(0 <= drawn[0] < 11 && s0[drawn[0]] > 0);
            assert(0 <= drawn[1] < 11 && s0[drawn[1]] > 0);
            assert(0 <= drawn[2] < 11 && s0[drawn[2]] > 0);
            assert(0 <= drawn[3] < 11 && s0[drawn[3]] > 0);
            assert(!opening_surrenders(drawn[0], drawn[1], drawn[2], drawn[3]));
            lemma_play_surrender_unused(s17, p.0, p.1, 2, pair_of(drawn[0], drawn[2]), d.0, d.1, up_value(drawn[1]), s);
        }
    } else {
        let f = deal_draws(s17, true, drawn, s);
        let g = deal_draws(s17, false, drawn, s);
        assert forall|r: int| 0 <= r < 11 && s[r] > 0 implies #[trigger] f(r) == g(r) by {
            lemma_dec_sum(s, r);
            let e = drawn.push(r);
            assert forall|j: int| 0 <= j < e.len() implies 0 <= #[trigger] e[j] < 11 && s0[e[j]] > 0 by {
                if j < drawn.len() {
                    assert(e[j] == drawn[j]);
                }
            }
            assert forall|x: int| 0 <= x < 11 implies dec(s, r)[x] <= #[trigger] s0[x] by {}
            lemma_deal_surrender_unused(s17, e, dec(s, r), s0);
        }
        lemma_mix_ext(s, f, g, 11);
    }
}

/// `g(r)` holds for every rank `r < n` present in the shoe.
pub open spec fn all_present(s: Seq<u32>, g: spec_fn(int) -> bool, n: int) -> bool
    decreases n,
{
    if n <= 0 {
        true
    } else {
        all_present(s, g, n - 1) && (s[n - 1] > 0 ==> g(n - 1))
    }
}

proof fn lemma_all_present(s: Seq<u32>, g: spec_fn(int) -> bool, n: int)
    requires
        0 <= n <= s.len(),
        all_present(s, g, n),
    ensures
        forall|r: int| 0 <= r < n && s[r] > 0 ==> #[trigger] g(r),
    decreases n,
{
    if n > 0 {
        lemma_all_present(s, g, n - 1);
    }
}

/// The dealer never has to draw from an empty shoe.
pub open spec fn dealer_never_short(s17: bool, total: int, soft: bool, s: Seq<u32>) -> bool
    decreases seq_sum(s), 1int,
    via dealer_never_short_decreases
{
    !dealer_must_draw(total, soft, s17) || (seq_sum(s) > 0 && all_present(
        s,
        dealer_draws_never_short(s17, total, soft, s),
        11,
    ))
}

pub open spec fn dealer_draws_never_short(s17: bool, total: int, soft: bool, s: Seq<u32>) -> spec_fn(int) -> bool
    decreases seq_sum(s), 0int,
    via dealer_draws_never_short_decreases
{
    |r: int|
        can_draw(s, r) ==> {
            let next = score_add(total, soft, r);
            next.0 > 21 || dealer_never_short(s17, next.0, next.1, dec(s, r))
        }
}

#[via_fn]
proof fn dealer_never_short_decreases(s17: bool, total: int, soft: bool, s: Seq<u32>) {
}

#[via_fn]
proof fn dealer_draws_never_short_decreases(s17: bool, total: int, soft: bool, s: Seq<u32>) {
    assert forall|r: int| can_draw(s, r) implies seq_sum(dec(s, r)) < seq_sum(s) by {
        lemma_dec_sum(s, r);
    }
}

/// Neither the player nor the dealer ever has to draw from an empty shoe.
pub open spec fn play_never_short(
    s17: bool,
    surrender: bool,
    total: int,
    soft: bool,
    count: int,
    pair: int,
    dealer_total: int,
    dealer_soft: bool,
    up: int,
    s: Seq<u32>,
) -> bool
    decreases seq_sum(s), 1int,
    via play_never_short_decreases
{
    if total > 21 {
        true
    } else {
        match decide(surrender, total, soft, count, pair, up) {
            Action::Hit => seq_sum(s) > 0 && all_present(
                s,
                hit_draws_never_short(s17, surrender, total, soft, count, dealer_total, dealer_soft, up, s),
                11,
            ),
            Action::Double => seq_sum(s) > 0 && all_present(
                s,
                double_draws_never_short(s17, total, soft, dealer_total, dealer_soft, s),
                11,
            ),
            Action::Surrender => true,
            _ => dealer_never_short(s17, dealer_total, dealer_soft, s),
        }
    }
}

pub open spec fn hit_draws_never_short(
    s17: bool,
    surrender: bool,
    total: int,
    soft: bool,
    count: int,
    dealer_total: int,
    dealer_soft: bool,
    up: int,
    s: Seq<u32>,
) -> spec_fn(int) -> bool
    decreases seq_sum(s), 0int,
    via hit_draws_never_short_decreases
{
    |r: int|
        can_draw(s, r) ==> {
            let next = score_add(total, soft, r);
            next.0 > 21 || play_never_short(
                s17,
                surrender,
                next.0,
                next.1,
                count + 1,
                0,
                dealer_total,
                dealer_soft,
                up,
                dec(s, r),
            )
        }
}

pub open spec fn double_draws_never_short(
    s17: bool,
    total: int,
    soft: bool,
    dealer_total: int,
    dealer_soft: bool,
    s: Seq<u32>,
) -> spec_fn(int) -> bool {
    |r: int|
        can_draw(s, r) ==> {
            let next = score_add(total, soft, r);
            next.0 > 21 || dealer_never_short(s17, dealer_total, dealer_soft, dec(s, r))
        }
}

#[via_fn]
proof fn play_never_short_decreases(
    s17: bool,
    surrender: bool,
    total: int,
    soft: bool,
    count: int,
    pair: int,
    dealer_total: int,
    dealer_soft: bool,
    up: int,
    s: Seq<u32>,
) {
}

#[via_fn]
proof fn hit_draws_never_short_decreases(
    s17: bool,
    surrender: bool,
    total: int,
    soft: bool,
    count: int,
    dealer_total: int,
    dealer_soft: bool,
    up: int,
    s: Seq<u32>,
) {
    assert forall|r: int| can_draw(s, r) implies seq_sum(dec(s, r)) < seq_sum(s) by {
        lemma_dec_sum(s, r);
    }
}

/// No round dealt from `s` with `drawn` already out ever draws from an empty shoe.
pub open spec fn deal_never_short(s17: bool, surrender: bool, drawn: Seq<int>, s: Seq<u32>) -> bool
    decreases seq_sum(s), 1int,
    via deal_never_short_decreases
{
    if drawn.len() >= 4 {
        let p = start_score(drawn[0], drawn[2]);
        let d = start_score(drawn[1], drawn[3]);
        p.0 == 21 || d.0 == 21 || play_never_short(
            s17,
            surrender,
            p.0,
            p.1,
            2,
            pair_of(drawn[0], drawn[2]),
            d.0,
            d.1,
            up_value(drawn[1]),
            s,
        )
    } else {
        seq_sum(s) > 0 && all_present(s, deal_draws_never_short(s17, surrender, drawn, s), 11)
    }
}

pub open spec fn deal_draws_never_short(s17: bool, surrender: bool, drawn: Seq<int>, s: Seq<u32>) -> spec_fn(int) -> bool
    decreases seq_sum(s), 0int,
    via deal_draws_never_short_decreases
{
    |r: int| can_draw(s, r) ==> deal_never_short(s17, surrender, drawn.push(r), dec(s, r))
}

#[via_fn]
proof fn deal_never_short_decreases(s17: bool, surrender: bool, drawn: Seq<int>, s: Seq<u32>) {
}

#[via_fn]
proof fn deal_draws_never_short_decreases(s17: bool, surrender: bool, drawn: Seq<int>, s: Seq<u32>) {
    assert forall|r: int| can_draw(s, r) implies seq_sum(dec(s, r)) < seq_sum(s) by {
        lemma_dec_sum(s, r);
    }
}

/// A dealer who never has to draw from an empty shoe ends somewhere, up to
/// rounding: at most 11 units per card in the shoe are lost.
pub proof fn lemma_dealer_mass_never_short(s17: bool, total: int, soft: bool, s: Seq<u32>)
    requires
        s.len() == 11,
        dealer_never_short(s17, total, soft, s),
    ensures
        vec_sum(dealer_dist(s17, total, soft, s)) >= PROB_ONE - 11 * seq_sum(s),
    decreases seq_sum(s),
{
    let t = seq_sum(s) as int;
    if !dealer_must_draw(total, soft, s17) {
        if 17 <= total <= 21 {
            lemma_unit_dist(6, total - 17);
        } else {
            lemma_unit_dist(6, 5);
        }
    } else {
        let f = dealer_draws(s17, total, soft, s);
        let g = dealer_draws_never_short(s17, total, soft, s);
        lemma_all_present(s, g, 11);
        let lo = PROB_ONE - 11 * (t - 1);
        assert forall|r: int| 0 <= r < 11 && s[r] > 0 implies is_dist(#[trigger] f(r), 6) && vec_sum(f(r))
            >= lo by {
            let next = score_add(total, soft, r);
            lemma_dec_sum(s, r);
            assert(g(r));
            if next.0 > 21 {
                lemma_unit_dist(6, 5);
            } else {
                lemma_dealer_dist(s17, next.0, next.1, dec(s, r));
                lemma_dealer_mass_never_short(s17, next.0, next.1, dec(s, r));
            }
        }
        lemma_mix_mass_lower(s, f, 6, lo);
    }
}

/// The player's turn loses no mass, up to rounding, where no draw meets an
/// empty shoe.
#[verifier::spinoff_prover]
pub proof fn lemma_play_mass_never_short(
    s17: bool,
    surrender: bool,
    total: int,
    soft: bool,
    count: int,
    pair: int,
    dealer_total: int,
    dealer_soft: bool,
    up: int,
    s: Seq<u32>,
)
    requires
        s.len() == 11,
        play_never_short(s17, surrender, total, soft, count, pair, dealer_total, dealer_soft, up, s),
    ensures
        vec_sum(play(s17, surrender, total, soft, count, pair, dealer_total, dealer_soft, up, s))
            >= PROB_ONE - 11 * seq_sum(s),
    decreases seq_sum(s),
{
    let t = seq_sum(s) as int;
    let lo = PROB_ONE - 11 * (t - 1);
    if total > 21 {
        lemma_unit_dist(11, DEALER_WIN as int);
    } else {
        match decide(surrender, total, soft, count, pair, up) {
            Action::Hit => {
                let f = hit_draws(s17, surrender, total, soft, count, dealer_total, dealer_soft, up, s);
                let g = hit_draws_never_short(s17, surrender, total, soft, count, dealer_total, dealer_soft, up, s);
                lemma_all_present(s, g, 11);
                assert forall|r: int| 0 <= r < 11 && s[r] > 0 implies is_dist(#[trigger] f(r), 11)
                    && vec_sum(f(r)) >= lo by {
                    let next = score_add(total, soft, r);
                    lemma_dec_sum(s, r);
                    assert(g(r));
                    if next.0 > 21 {
                        lemma_unit_dist(11, DEALER_WIN as int);
                    } else {
                        lemma_play_dist(
                            s17,
                            surrender,
                            next.0,
                            next.1,
                            count + 1,
                            0,
                            dealer_total,
                            dealer_soft,
                            up,
                            dec(s, r),
                        );
                        lemma_play_mass_never_short(
                            s17,
                            surrender,
                            next.0,
                            next.1,
                            count + 1,
                            0,
                            dealer_total,
                            dealer_soft,
                            up,
                            dec(s, r),
                        );
                    }
                }
                lemma_mix_mass_lower(s, f, 11, lo);
            },
            Action::Double => {
                let f = double_draws(s17, surrender, total, soft, dealer_total, dealer_soft, s);
                let g = double_draws_never_short(s17, total, soft, dealer_total, dealer_soft, s);
                lemma_all_present(s, g, 11);
                assert forall|r: int| 0 <= r < 11 && s[r] > 0 implies is_dist(#[trigger] f(r), 11)
                    && vec_sum(f(r)) >= lo by {
                    let next = score_add(total, soft, r);
                    lemma_dec_sum(s, r);
                    assert(g(r));
                    if next.0 > 21 {
                        lemma_unit_dist(11, DEALER_WIN as int);
                    } else {
                        let dd = dealer_dist(s17, dealer_total, dealer_soft, dec(s, r));
                        lemma_dealer_dist(s17, dealer_total, dealer_soft, dec(s, r));
                        lemma_dealer_mass_never_short(s17, dealer_total, dealer_soft, dec(s, r));
                        lemma_stand_dist(next.0, dd);
                    }
                }
                lemma_mix_mass_lower(s, f, 11, lo);
                lemma_double_draws_dist(s17, surrender, total, soft, dealer_total, dealer_soft, s);
                lemma_mix_dist(s, f, 11);
                lemma_doubled_dist(mix(s, f, 11));
            },
            Action::Surrender => {
                lemma_unit_dist(11, SURRENDER as int);
            },
            _ => {
                lemma_dealer_dist(s17, dealer_total, dealer_soft, s);
                lemma_dealer_mass_never_short(s17, dealer_total, dealer_soft, s);
                lemma_stand_dist(total, dealer_dist(s17, dealer_total, dealer_soft, s));
            },
        }
    }
}

/// A deal loses no mass, up to rounding, where no draw meets an empty shoe.
#[verifier::spinoff_prover]
pub proof fn lemma_deal_mass_never_short(s17: bool, surrender: bool, drawn: Seq<int>, s: Seq<u32>)
    requires
        s.len() == 11,
        deal_never_short(s17, surrender, drawn, s),
    ensures
        vec_sum(deal(s17, surrender, drawn, s)) >= PROB_ONE - 11 * seq_sum(s),
    decreases seq_sum(s),
{
    let t = seq_sum(s) as int;
    if drawn.len() >= 4 {
        let p = start_score(drawn[0], drawn[2]);
        let d = start_score(drawn[1], drawn[3]);
        if p.0 == 21 && d.0 == 21 {
            lemma_unit_dist(11, PUSH as int);
        } else if p.0 == 21 {
            lemma_unit_dist(11, PLAYER_BLACKJACK as int);
        } else if d.0 == 21 {
            lemma_unit_dist(11, DEALER_BLACKJACK as int);
        } else {
            lemma_play_mass_never_short(s17, surrender, p.0, p.1, 2, pair_of(drawn[0], drawn[2]), d.0, d.1, up_value(drawn[1]), s);
        }
    } else {
        let f = deal_draws(s17, surrender, drawn, s);
        let g = deal_draws_never_short(s17, surrender, drawn, s);
        lemma_all_present(s, g, 11);
        let lo = PROB_ONE - 11 * (t - 1);
        assert forall|r: int| 0 <= r < 11 && s[r] > 0 implies is_dist(#[trigger] f(r), 11) && vec_sum(f(r))
            >= lo by {
            lemma_dec_sum(s, r);
            assert(g(r));
            lemma_deal_dist(s17, surrender, drawn.push(r), dec(s, r));
            lemma_deal_mass_never_short(s17, surrender, drawn.push(r), dec(s, r));
        }
        lemma_mix_mass_lower(s, f, 11, lo);
    }
}

/// The smallest non-zero surrender mass a deal with `k` cards still to come
/// can hold, for shoes of at most 1000 cards.
pub open spec fn surrender_floor(k: int) -> int
    decreases k,
{
    if k <= 0 {
        PROB_ONE as int
    } else {
        surrender_floor(k - 1) / 1000
    }
}

proof fn lemma_weighted_term(s: Seq<u32>, g: spec_fn(int) -> int, n: int, r: int)
    requires
        0 <= r < n <= s.len(),
        forall|x: int| 0 <= x < n && s[x] > 0 ==> #[trigger] g(x) >= 0,
    ensures
        weighted(s, g, n) >= s[r] * g(r),
        weighted(s, g, n) >= 0,
    decreases n,
{
    if n - 1 > r {
        lemma_weighted_term(s, g, n - 1, r);
    } else {
        lemma_weighted_nonneg(s, g, n - 1);
    }
    let k = s[n - 1] as int;
    if k > 0 {
        let x = g(n - 1);
        assert(k * x >= 0) by (nonlinear_arith)
            requires
                k > 0,
                x >= 0,
        ;
    } else {
        assert(k * g(n - 1) == 0);
    }
}

proof fn lemma_weighted_nonneg(s: Seq<u32>, g: spec_fn(int) -> int, n: int)
    requires
        0 <= n <= s.len(),
        forall|x: int| 0 <= x < n && s[x] > 0 ==> #[trigger] g(x) >= 0,
    ensures
        weighted(s, g, n) >= 0,
    decreases n,
{
    if n > 0 {
        lemma_weighted_nonneg(s, g, n - 1);
        let k = s[n - 1] as int;
        if k > 0 {
            let x = g(n - 1);
            assert(k * x >= 0) by (nonlinear_arith)
                requires
                    k > 0,
                    x >= 0,
            ;
        } else {
            assert(k * g(n - 1) == 0);
        }
    }
}

/// In a shoe of at most 1000 cards a deal's surrender mass is zero or at
/// least `surrender_floor` of the cards still to come; where it is zero, the
/// deal is the same with surrender withheld.
#[verifier::spinoff_prover]
pub proof fn lemma_deal_surrender_gap(s17: bool, drawn: Seq<int>, s: Seq<u32>)
    requires
        s.len() == 11,
        drawn.len() <= 4,
        seq_sum(s) <= 1000,
    ensures
        deal(s17, true, drawn, s)[SURRENDER as int] == 0 || deal(s17, true, drawn, s)[SURRENDER as int]
            >= surrender_floor(4 - drawn.len()),
        deal(s17, true, drawn, s)[SURRENDER as int] == 0 ==> deal(s17, true, drawn, s) == deal(
            s17,
            false,
            drawn,
            s,
        ),
    decreases seq_sum(s),
{
    reveal_with_fuel(surrender_floor, 5);
    let k = SURRENDER as int;
    if drawn.len() >= 4 {
        let p = start_score(drawn[0], drawn[2]);
        let d = start_score(drawn[1], drawn[3]);
        if !(p.0 == 21 || d.0 == 21) {
            let pair = pair_of(drawn[0], drawn[2]);
            let up = up_value(drawn[1]);
            if full_action(p.0, p.1, 2, pair, up) != Action::Surrender {
                lemma_play_surrender_unused(s17, p.0, p.1, 2, pair, d.0, d.1, up, s);
                lemma_play_entry_zero(s17, false, p.0, p.1, 2, pair, d.0, d.1, up, s, k);
            } else {
                assert(decide(true, p.0, p.1, 2, pair, up) == Action::Surrender);
                assert(play(s17, true, p.0, p.1, 2, pair, d.0, d.1, up, s) == unit(11, k));
            }
        }
    } else {
        let t = seq_sum(s) as int;
        let f = deal_draws(s17, true, drawn, s);
        let g = deal_draws(s17, false, drawn, s);
        let lo = surrender_floor(4 - drawn.len() - 1);
        assert(surrender_floor(4 - drawn.len()) == lo / 1000);
        assert(lo >= 1_000_000_000);
        lemma_deal_draws_dist(s17, true, drawn, s);
        assert forall|r: int| 0 <= r < 11 && s[r] > 0 implies (#[trigger] f(r))[k] == 0 || f(r)[k] >= lo by {
            lemma_dec_sum(s, r);
            lemma_deal_surrender_gap(s17, drawn.push(r), dec(s, r));
        }
        if t > 0 {
            assert forall|x: int| 0 <= x < 11 && s[x] > 0 implies #[trigger] column(f, k)(x) >= 0 by {
                assert(column(f, k)(x) == f(x)[k]);
            }
            let w = weighted(s, column(f, k), 11);
            lemma_weighted_nonneg(s, column(f, k), 11);
            if exists|r: int| 0 <= r < 11 && s[r] > 0 && (#[trigger] f(r))[k] != 0 {
                let r = choose|r: int| 0 <= r < 11 && s[r] > 0 && (#[trigger] f(r))[k] != 0;
                lemma_weighted_term(s, column(f, k), 11, r);
                assert(column(f, k)(r) == f(r)[k]);
                let c = s[r] as int;
                let v = f(r)[k];
                assert(c * v >= v) by (nonlinear_arith)
                    requires
                        c >= 1,
                        v >= 0,
                ;
                assert(w / t >= lo / 1000) by (nonlinear_arith)
                    requires
                        w >= lo,
                        0 < t <= 1000,
                        lo >= 0,
                ;
                assert(mix(s, f, 11)[k] == w / t);
            } else {
                assert forall|r: int| 0 <= r < 11 && s[r] > 0 implies #[trigger] f(r) == g(r) by {
                    lemma_dec_sum(s, r);
                    lemma_deal_surrender_gap(s17, drawn.push(r), dec(s, r));
                }
                lemma_mix_ext(s, f, g, 11);
                lemma_mix_entry_zero(s, f, 11, k);
            }
        } else {
            assert(mix(s, f, 11) == mix(s, g, 11));
        }
    }
}

} // verus!
