//! Cards, hands, shoe compositions and outcome vectors.
use vstd::prelude::*;

verus! {

/// Fixed-point unit of probability: a probability `p` is held as `p * PROB_ONE`.
pub const PROB_ONE: u64 = 1_000_000_000_000_000_000;

/// A card's face value. `Number(n)` is meaningful for `2 <= n <= 10`.
#[derive(Debug, Clone, Copy, PartialEq, Eq, Hash, Structural)]
pub enum Card {
    Ace,
    Number(u8),
    Face,
}

#[derive(Debug, Clone, Copy, PartialEq, Eq, Hash, Structural)]
pub enum Suit {
    Spades,
    Hearts,
    Diamonds,
    Clubs,
}

#[derive(Debug, Clone, Copy, PartialEq, Eq, Hash, Structural)]
pub struct PlayingCard {
    pub card: Card,
    pub suit: Suit,
}

/// A player decision.
#[derive(Debug, Clone, Copy, PartialEq, Eq, Structural)]
pub enum Action {
    Hit,
    Stand,
    Double,
    Split,
    Surrender,
}

/// The result of one settled hand.
#[derive(Debug, Clone, Copy, PartialEq, Eq, Structural)]
pub enum GameResult {
    PlayerWin,
    DealerWin,
    Push,
    PlayerBlackjack,
    DealerBlackjack,
}

/// The kinds of wager a table offers.
#[derive(Debug, Clone, Copy, PartialEq, Eq, Structural)]
pub enum BetType {
    Normal,
    Insurance,
    PerfectPair,
    TwentyOnePlusThree,
}

/// Remaining cards per rank bucket: 0 = Ace, 1..=9 = the numbers 2 through 10,
/// 10 = the face cards.
pub type PointCounts = [u32; 11];

impl Card {
    /// A number card must lie in 2..=10.
    pub open spec fn is_valid(self) -> bool {
        match self {
            Card::Number(n) => 2 <= n <= 10,
            _ => true,
        }
    }
}

/// Points of a card with an ace counted as one.
pub open spec fn card_points(c: Card) -> int {
    match c {
        Card::Ace => 1,
        Card::Number(n) => n as int,
        Card::Face => 10,
    }
}

/// The rank bucket of a card.
pub open spec fn bucket_of(c: Card) -> int {
    match c {
        Card::Ace => 0,
        Card::Number(n) => n - 1,
        Card::Face => 10,
    }
}

/// The card that a rank bucket stands for.
pub open spec fn card_of_bucket(i: int) -> Card {
    if i == 0 {
        Card::Ace
    } else if i == 10 {
        Card::Face
    } else {
        Card::Number((i + 1) as u8)
    }
}

/// Points of a rank bucket, an ace counted as one.
pub open spec fn bucket_points(i: int) -> int {
    if i == 0 {
        1
    } else if 1 <= i <= 9 {
        i + 1
    } else if i == 10 {
        10
    } else {
        0
    }
}

/// Sum of a hand with every ace counted as one.
pub open spec fn hard_sum(cards: Seq<PlayingCard>) -> int
    decreases cards.len(),
{
    if cards.len() == 0 {
        0
    } else {
        hard_sum(cards.drop_last()) + card_points(cards.last().card)
    }
}

/// Number of aces in a hand.
pub open spec fn ace_count(cards: Seq<PlayingCard>) -> int
    decreases cards.len(),
{
    if cards.len() == 0 {
        0
    } else {
        ace_count(cards.drop_last()) + if cards.last().card == Card::Ace {
            1int
        } else {
            0int
        }
    }
}

/// An ace still counts eleven: there is one, and eleven does not bust the hand.
pub open spec fn hand_is_soft(cards: Seq<PlayingCard>) -> bool {
    ace_count(cards) > 0 && hard_sum(cards) + 10 <= 21
}

/// The hand's total: one ace counts eleven where that does not bust the hand.
pub open spec fn hand_value(cards: Seq<PlayingCard>) -> int {
    if hand_is_soft(cards) {
        hard_sum(cards) + 10
    } else {
        hard_sum(cards)
    }
}

/// Every card is valid, and the hand is short enough for its total to fit a `u8`.
pub open spec fn scorable(cards: Seq<PlayingCard>) -> bool {
    &&& cards.len() <= 23
    &&& forall|i: int| 0 <= i < cards.len() ==> (#[trigger] cards[i]).card.is_valid()
}

proof fn lemma_hard_sum_bounds(cards: Seq<PlayingCard>)
    requires
        forall|i: int| 0 <= i < cards.len() ==> (#[trigger] cards[i]).card.is_valid(),
    ensures
        cards.len() <= hard_sum(cards) <= 10 * cards.len(),
        0 <= ace_count(cards) <= cards.len(),
    decreases cards.len(),
{
    if cards.len() > 0 {
        let d = cards.drop_last();
        assert forall|i: int| 0 <= i < d.len() implies (#[trigger] d[i]).card.is_valid() by {
            assert(d[i] == cards[i]);
        }
        lemma_hard_sum_bounds(d);
        assert(cards.last() == cards[cards.len() - 1]);
    }
}

/// A hand of cards.
#[derive(Debug, Clone)]
pub struct Hand {
    pub cards: Vec<PlayingCard>,
}

impl Hand {
    pub fn new() -> (h: Self)
        ensures
            h.cards@.len() == 0,
    {
        Hand { cards: Vec::new() }
    }

    pub fn add_card(&mut self, card: PlayingCard)
        ensures
            final(self).cards@ == old(self).cards@.push(card),
    {
        self.cards.push(card);
    }

    /// Hard sum and number of aces.
    fn sum_and_aces(&self) -> (r: (u32, u32))
        requires
            scorable(self.cards@),
        ensures
            r.0 == hard_sum(self.cards@),
            r.1 == ace_count(self.cards@),
    {
        let mut total: u32 = 0;
        let mut aces: u32 = 0;
        let mut i: usize = 0;
        while i < self.cards.len()
            invariant
                scorable(self.cards@),
                0 <= i <= self.cards@.len(),
                total == hard_sum(self.cards@.take(i as int)),
                aces == ace_count(self.cards@.take(i as int)),
                total <= 10 * i,
                aces <= i,
            decreases self.cards@.len() - i,
        {
            let c = self.cards[i].card;
            proof {
                assert(self.cards@.take(i + 1).drop_last() =~= self.cards@.take(i as int));
                assert(self.cards@[i as int].card.is_valid());
            }
            match c {
                Card::Ace => {
                    aces = aces + 1;
                    total = total + 1;
                },
                Card::Number(n) => {
                    total = total + n as u32;
                },
                Card::Face => {
                    total = total + 10;
                },
            }
            i = i + 1;
        }
        proof {
            assert(self.cards@.take(i as int) =~= self.cards@);
        }
        (total, aces)
    }

    /// The hand's total, one ace counting eleven where that does not bust it.
    pub fn value(&self) -> (v: u8)
        requires
            scorable(self.cards@),
        ensures
            v == hand_value(self.cards@),
    {
        let (total, aces) = self.sum_and_aces();
        proof {
            lemma_hard_sum_bounds(self.cards@);
        }
        if aces > 0 && total + 10 <= 21 {
            (total + 10) as u8
        } else {
            total as u8
        }
    }

    /// An ace still counts eleven.
    pub fn is_soft(&self) -> (b: bool)
        requires
            scorable(self.cards@),
        ensures
            b == hand_is_soft(self.cards@),
    {
        let (total, aces) = self.sum_and_aces();
        proof {
            lemma_hard_sum_bounds(self.cards@);
        }
        aces > 0 && total + 10 <= 21
    }

    /// Two cards totalling 21.
    pub fn is_blackjack(&self) -> (b: bool)
        requires
            scorable(self.cards@),
        ensures
            b == (self.cards@.len() == 2 && hand_value(self.cards@) == 21),
    {
        self.cards.len() == 2 && self.value() == 21
    }

    /// The total exceeds 21.
    pub fn is_busted(&self) -> (b: bool)
        requires
            scorable(self.cards@),
        ensures
            b == (hand_value(self.cards@) > 21),
    {
        self.value() > 21
    }

    pub fn card_count(&self) -> (n: usize)
        ensures
            n == self.cards@.len(),
    {
        self.cards.len()
    }

    /// Doubling (and surrender) is open on the first two cards only.
    pub fn can_double(&self) -> (b: bool)
        ensures
            b == (self.cards@.len() == 2),
    {
        self.cards.len() == 2
    }

    /// Two cards of equal points; all ten-valued cards are equal.
    pub fn can_split(&self) -> (b: bool)
        ensures
            b == (self.cards@.len() == 2 && card_points(self.cards@[0].card) == card_points(
                self.cards@[1].card,
            )),
    {
        if self.cards.len() != 2 {
            return false;
        }
        let v1 = Self::card_to_point_value(self.cards[0].card);
        let v2 = Self::card_to_point_value(self.cards[1].card);
        v1 == v2
    }

    pub fn first_card(&self) -> (c: Option<PlayingCard>)
        ensures
            c == (if self.cards@.len() > 0 {
                Some(self.cards@[0])
            } else {
                None
            }),
    {
        if self.cards.len() > 0 {
            Some(self.cards[0])
        } else {
            None
        }
    }

    pub fn second_card(&self) -> (c: Option<PlayingCard>)
        ensures
            c == (if self.cards@.len() >= 2 {
                Some(self.cards@[1])
            } else {
                None
            }),
    {
        if self.cards.len() >= 2 {
            Some(self.cards[1])
        } else {
            None
        }
    }

    /// Points used to compare the cards of a pair.
    fn card_to_point_value(card: Card) -> (v: u8)
        ensures
            v == card_points(card),
    {
        match card {
            Card::Ace => 1,
            Card::Number(n) => n,
            Card::Face => 10,
        }
    }
}

impl Default for Hand {
    fn default() -> (h: Self)
        ensures
            h.cards@.len() == 0,
    {
        Self::new()
    }
}

/// The rank bucket of a card, and whether it is an ace.
pub fn card_to_point_index(card: Card) -> (r: (usize, bool))
    requires
        card.is_valid(),
    ensures
        r.0 == bucket_of(card),
        r.0 < 11,
        r.1 == (card == Card::Ace),
{
    match card {
        Card::Ace => (0, true),
        Card::Number(n) => ((n - 1) as usize, false),
        Card::Face => (10, false),
    }
}

/// Points of a rank bucket (an ace counts one); 0 outside the buckets.
pub fn point_index_to_value(index: usize) -> (v: u8)
    ensures
        v == bucket_points(index as int),
{
    if index == 0 {
        1
    } else if index <= 9 {
        (index + 1) as u8
    } else if index == 10 {
        10
    } else {
        0
    }
}

/// Points of a card, an ace counted as one.
pub fn card_to_point(card: Card) -> (v: u8)
    ensures
        v == card_points(card),
{
    match card {
        Card::Ace => 1,
        Card::Number(n) => n,
        Card::Face => 10,
    }
}

/// Remaining cards of a shoe, keyed by card. `Number(10)` and `Face` are kept
/// apart here; the engine merges them into one ten-valued point.
pub struct CardCounts {
    slots: [Option<u32>; 11],
}

impl View for CardCounts {
    type V = Map<Card, u32>;

    closed spec fn view(&self) -> Map<Card, u32> {
        Map::new(
            |c: Card| c.is_valid() && self.slots@[bucket_of(c)] is Some,
            |c: Card| self.slots@[bucket_of(c)]->Some_0,
        )
    }
}

/// The per-bucket counts of a shoe given by card.
pub open spec fn shoe_of(deck: Map<Card, u32>) -> Seq<u32> {
    Seq::new(
        11,
        |i: int|
            if deck.contains_key(card_of_bucket(i)) {
                deck[card_of_bucket(i)]
            } else {
                0u32
            },
    )
}

proof fn lemma_bucket_round_trip()
    ensures
        forall|c: Card| #[trigger] c.is_valid() ==> 0 <= bucket_of(c) < 11 && card_of_bucket(bucket_of(c)) == c,
        forall|i: int| 0 <= i < 11 ==> (#[trigger] card_of_bucket(i)).is_valid() && bucket_of(card_of_bucket(i)) == i,
{
}

impl CardCounts {
    pub fn new() -> (d: Self)
        ensures
            d@ == Map::<Card, u32>::empty(),
    {
        let d = CardCounts { slots: [None; 11] };
        proof {
            assert(d@ =~= Map::<Card, u32>::empty());
        }
        d
    }

    /// Sets the count of `card`, returning the count it replaces.
    pub fn insert(&mut self, card: Card, count: u32) -> (prev: Option<u32>)
        requires
            card.is_valid(),
        ensures
            final(self)@ == old(self)@.insert(card, count),
            prev == (if old(self)@.contains_key(card) {
                Some(old(self)@[card])
            } else {
                None
            }),
    {
        let (i, _) = card_to_point_index(card);
        let prev = self.slots[i];
        self.slots[i] = Some(count);
        proof {
            lemma_bucket_round_trip();
            assert(final(self)@ =~= old(self)@.insert(card, count));
        }
        prev
    }

    /// Adds `n` cards of kind `card`, starting from zero if it has none.
    pub fn add(&mut self, card: Card, n: u32)
        requires
            card.is_valid(),
            old(self)@.contains_key(card) ==> old(self)@[card] + n <= u32::MAX,
        ensures
            final(self)@ == old(self)@.insert(
                card,
                (if old(self)@.contains_key(card) {
                    old(self)@[card] + n
                } else {
                    n as int
                }) as u32,
            ),
    {
        let (i, _) = card_to_point_index(card);
        let now = match self.slots[i] {
            Some(k) => k + n,
            None => n,
        };
        self.slots[i] = Some(now);
        proof {
            lemma_bucket_round_trip();
            assert(final(self)@ =~= old(self)@.insert(
                card,
                (if old(self)@.contains_key(card) {
                    old(self)@[card] + n
                } else {
                    n as int
                }) as u32,
            ));
        }
    }

    /// The count of `card`, if it was ever set.
    pub fn get(&self, card: Card) -> (r: Option<u32>)
        requires
            card.is_valid(),
        ensures
            r == (if self@.contains_key(card) {
                Some(self@[card])
            } else {
                None
            }),
    {
        let (i, _) = card_to_point_index(card);
        self.slots[i]
    }

    /// The count of each bucket.
    fn counts(&self) -> (r: PointCounts)
        ensures
            r@ == shoe_of(self@),
    {
        let mut r: PointCounts = [0; 11];
        let mut i: usize = 0;
        while i < 11
            invariant
                0 <= i <= 11,
                forall|j: int| 0 <= j < i ==> r@[j] == shoe_of(self@)[j],
            decreases 11 - i,
        {
            proof {
                lemma_bucket_round_trip();
            }
            r[i] = match self.slots[i] {
                Some(k) => k,
                None => 0,
            };
            i = i + 1;
        }
        proof {
            assert(r@ =~= shoe_of(self@));
        }
        r
    }

    /// Number of cards in the shoe.
    pub fn total(&self) -> (t: u64)
        ensures
            t == seq_sum(shoe_of(self@)),
    {
        let c = self.counts();
        sum_counts(&c)
    }
}

/// Sum of a sequence of counts.
pub open spec fn seq_sum(s: Seq<u32>) -> nat
    decreases s.len(),
{
    if s.len() == 0 {
        0
    } else {
        seq_sum(s.drop_last()) + s.last() as nat
    }
}

pub proof fn lemma_seq_sum_bound(s: Seq<u32>)
    ensures
        seq_sum(s) <= s.len() * 0xffff_ffff,
    decreases s.len(),
{
    if s.len() > 0 {
        lemma_seq_sum_bound(s.drop_last());
    }
}

/// Number of cards in a shoe of rank buckets.
pub fn sum_counts(c: &PointCounts) -> (t: u64)
    ensures
        t == seq_sum(c@),
{
    let mut t: u64 = 0;
    let mut i: usize = 0;
    while i < 11
        invariant
            0 <= i <= 11,
            t == seq_sum(c@.take(i as int)),
            t <= i * 0xffff_ffff,
        decreases 11 - i,
    {
        proof {
            assert(c@.take(i + 1).drop_last() =~= c@.take(i as int));
        }
        t = t + c[i] as u64;
        i = i + 1;
    }
    proof {
        assert(c@.take(11) =~= c@);
    }
    t
}

/// The per-bucket counts of a shoe given by card.
pub fn card_counts_to_point_counts(card_counts: &CardCounts) -> (r: PointCounts)
    ensures
        r@ == shoe_of(card_counts@),
{
    card_counts.counts()
}

/// Sum of the entries of a vector.
pub open spec fn vec_sum(v: Seq<int>) -> int
    decreases v.len(),
{
    if v.len() == 0 {
        0
    } else {
        vec_sum(v.drop_last()) + v.last()
    }
}

/// With no negative entry, the sum bounds each entry.
pub proof fn lemma_vec_sum_entry(v: Seq<int>)
    requires
        forall|i: int| 0 <= i < v.len() ==> v[i] >= 0,
    ensures
        vec_sum(v) >= 0,
        forall|i: int| 0 <= i < v.len() ==> v[i] <= vec_sum(v),
    decreases v.len(),
{
    if v.len() > 0 {
        let d = v.drop_last();
        lemma_vec_sum_entry(d);
        assert forall|i: int| 0 <= i < v.len() implies v[i] <= vec_sum(v) by {
            if i < v.len() - 1 {
                assert(d[i] == v[i]);
            }
        }
    }
}

/// Probabilities of every way a round can end, in units of `PROB_ONE`: each
/// result for the normal bet and for a doubled bet, and surrender.
#[derive(Debug, Clone, Copy)]
pub struct GameOutcome {
    pub player_win_prob: u64,
    pub dealer_win_prob: u64,
    pub push_prob: u64,
    pub player_blackjack_prob: u64,
    pub dealer_blackjack_prob: u64,
    pub player_win_prob_double: u64,
    pub dealer_win_prob_double: u64,
    pub push_prob_double: u64,
    pub player_blackjack_prob_double: u64,
    pub dealer_blackjack_prob_double: u64,
    pub surrender_prob: u64,
}

/// Positions of the outcome vector: the five normal results, the same five on a
/// doubled bet, then surrender.
pub const PLAYER_WIN: usize = 0;
pub const DEALER_WIN: usize = 1;
pub const PUSH: usize = 2;
pub const PLAYER_BLACKJACK: usize = 3;
pub const DEALER_BLACKJACK: usize = 4;
pub const DOUBLED: usize = 5;
pub const SURRENDER: usize = 10;

impl View for GameOutcome {
    type V = Seq<int>;

    open spec fn view(&self) -> Seq<int> {
        seq![
            self.player_win_prob as int,
            self.dealer_win_prob as int,
            self.push_prob as int,
            self.player_blackjack_prob as int,
            self.dealer_blackjack_prob as int,
            self.player_win_prob_double as int,
            self.dealer_win_prob_double as int,
            self.push_prob_double as int,
            self.player_blackjack_prob_double as int,
            self.dealer_blackjack_prob_double as int,
            self.surrender_prob as int,
        ]
    }
}

impl GameOutcome {
    /// All probabilities zero.
    pub fn zero() -> (o: Self)
        ensures
            o@ == Seq::new(11, |i: int| 0int),
    {
        let o = GameOutcome {
            player_win_prob: 0,
            dealer_win_prob: 0,
            push_prob: 0,
            player_blackjack_prob: 0,
            dealer_blackjack_prob: 0,
            player_win_prob_double: 0,
            dealer_win_prob_double: 0,
            push_prob_double: 0,
            player_blackjack_prob_double: 0,
            dealer_blackjack_prob_double: 0,
            surrender_prob: 0,
        };
        proof {
            assert(o@ =~= Seq::new(11, |i: int| 0int));
        }
        o
    }

    pub fn to_array(&self) -> (a: [u64; 11])
        ensures
            forall|i: int| 0 <= i < 11 ==> a@[i] == self@[i],
    {
        [
            self.player_win_prob,
            self.dealer_win_prob,
            self.push_prob,
            self.player_blackjack_prob,
            self.dealer_blackjack_prob,
            self.player_win_prob_double,
            self.dealer_win_prob_double,
            self.push_prob_double,
            self.player_blackjack_prob_double,
            self.dealer_blackjack_prob_double,
            self.surrender_prob,
        ]
    }

    pub fn from_array(a: &[u64; 11]) -> (o: Self)
        ensures
            forall|i: int| 0 <= i < 11 ==> o@[i] == a@[i],
    {
        GameOutcome {
            player_win_prob: a[0],
            dealer_win_prob: a[1],
            push_prob: a[2],
            player_blackjack_prob: a[3],
            dealer_blackjack_prob: a[4],
            player_win_prob_double: a[5],
            dealer_win_prob_double: a[6],
            push_prob_double: a[7],
            player_blackjack_prob_double: a[8],
            dealer_blackjack_prob_double: a[9],
            surrender_prob: a[10],
        }
    }

    /// Adds `other` weighted by `weight / PROB_ONE` (rounded down per entry).
    pub fn add(&mut self, other: &GameOutcome, weight: u64)
        requires
            weight <= PROB_ONE,
            forall|i: int|
                0 <= i < 11 ==> #[trigger] old(self)@[i] + other@[i] * weight / (PROB_ONE as int)
                    <= u64::MAX,
        ensures
            forall|i: int|
                0 <= i < 11 ==> #[trigger] final(self)@[i] == old(self)@[i] + other@[i] * weight
                    / (PROB_ONE as int),
    {
        let mut a = self.to_array();
        let b = other.to_array();
        let mut i: usize = 0;
        while i < 11
            invariant
                0 <= i <= 11,
                weight <= PROB_ONE,
                forall|j: int| 0 <= j < 11 ==> b@[j] == other@[j],
                forall|j: int|
                    0 <= j < 11 ==> #[trigger] old(self)@[j] + other@[j] * weight / (
                    PROB_ONE as int) <= u64::MAX,
                forall|j: int|
                    0 <= j < i ==> a@[j] == old(self)@[j] + other@[j] * weight / (PROB_ONE as int),
                forall|j: int| i <= j < 11 ==> a@[j] == old(self)@[j],
            decreases 11 - i,
        {
            let x = b[i] as u128;
            proof {
                assert(x * weight <= 0xffff_ffff_ffff_ffff * PROB_ONE) by (nonlinear_arith)
                    requires
                        x <= 0xffff_ffff_ffff_ffff,
                        weight <= PROB_ONE,
                ;
            }
            let part = (x * weight as u128 / PROB_ONE as u128) as u64;
            a[i] = a[i] + part;
            i = i + 1;
        }
        *self = GameOutcome::from_array(&a);
    }

    /// Adds the normal-bet results of `other`, weighted by `weight / PROB_ONE`,
    /// to the doubled-bet results.
    pub fn add_double(&mut self, other: &GameOutcome, weight: u64)
        requires
            weight <= PROB_ONE,
            forall|i: int|
                0 <= i < 5 ==> #[trigger] old(self)@[i + 5] + other@[i] * weight / (PROB_ONE as int)
                    <= u64::MAX,
        ensures
            forall|i: int|
                0 <= i < 5 ==> #[trigger] final(self)@[i + 5] == old(self)@[i + 5] + other@[i]
                    * weight / (PROB_ONE as int),
            forall|i: int| 0 <= i < 5 ==> #[trigger] final(self)@[i] == old(self)@[i],
            final(self)@[10] == old(self)@[10],
    {
        let mut a = self.to_array();
        let b = other.to_array();
        let mut i: usize = 0;
        while i < 5
            invariant
                0 <= i <= 5,
                weight <= PROB_ONE,
                forall|j: int| 0 <= j < 11 ==> b@[j] == other@[j],
                forall|j: int|
                    0 <= j < 5 ==> #[trigger] old(self)@[j + 5] + other@[j] * weight / (
                    PROB_ONE as int) <= u64::MAX,
                forall|j: int|
                    0 <= j < i ==> a@[j + 5] == old(self)@[j + 5] + other@[j] * weight / (
                    PROB_ONE as int),
                forall|j: int| i + 5 <= j < 11 ==> a@[j] == old(self)@[j],
                forall|j: int| 0 <= j < 5 ==> a@[j] == old(self)@[j],
            decreases 5 - i,
        {
            let x = b[i] as u128;
            proof {
                assert(x * weight <= 0xffff_ffff_ffff_ffff * PROB_ONE) by (nonlinear_arith)
                    requires
                        x <= 0xffff_ffff_ffff_ffff,
                        weight <= PROB_ONE,
                ;
            }
            let part = (x * weight as u128 / PROB_ONE as u128) as u64;
            a[i + 5] = a[i + 5] + part;
            i = i + 1;
        }
        *self = GameOutcome::from_array(&a);
    }

    /// Rescales the entries so that they sum to `PROB_ONE` (each rounded down);
    /// an all-zero outcome is left as it is.
    pub fn normalize(&mut self)
        ensures
            vec_sum(old(self)@) == 0 ==> final(self)@ == old(self)@,
            vec_sum(old(self)@) > 0 ==> forall|i: int|
                0 <= i < 11 ==> #[trigger] final(self)@[i] == old(self)@[i] * (PROB_ONE as int)
                    / vec_sum(old(self)@),
    {
        let mut a = self.to_array();
        let ghost v = self@;
        let mut total: u128 = 0;
        let mut i: usize = 0;
        while i < 11
            invariant
                0 <= i <= 11,
                v == old(self)@,
                v.len() == 11,
                forall|j: int| 0 <= j < 11 ==> a@[j] == v[j],
                total == vec_sum(v.take(i as int)),
                total <= i * 0xffff_ffff_ffff_ffff,
            decreases 11 - i,
        {
            proof {
                assert(v.take(i + 1).drop_last() =~= v.take(i as int));
            }
            total = total + a[i] as u128;
            i = i + 1;
        }
        proof {
            assert(v.take(11) =~= v);
        }
        if total == 0 {
            return;
        }
        proof {
            lemma_vec_sum_entry(v);
        }
        let mut i: usize = 0;
        while i < 11
            invariant
                0 <= i <= 11,
                v == old(self)@,
                v.len() == 11,
                total == vec_sum(v),
                total > 0,
                forall|j: int| 0 <= j < 11 ==> v[j] <= vec_sum(v),
                forall|j: int| i <= j < 11 ==> a@[j] == v[j],
                forall|j: int| 0 <= j < i ==> a@[j] == v[j] * (PROB_ONE as int) / vec_sum(v),
            decreases 11 - i,
        {
            let x = a[i] as u128;
            proof {
                assert(x * PROB_ONE <= total * PROB_ONE) by (nonlinear_arith)
                    requires
                        x <= total,
                ;
                assert((x * PROB_ONE) as int / (total as int) <= PROB_ONE) by (nonlinear_arith)
                    requires
                        x <= total,
                        total > 0,
                ;
            }
            a[i] = (x * PROB_ONE as u128 / total) as u64;
            i = i + 1;
        }
        *self = GameOutcome::from_array(&a);
    }
}

/// What a table is worth to the player: expected value of one unit bet, in
/// units of `EV_ONE`, split into its normal, doubled and surrender parts; the
/// outcome probabilities, in units of `PROB_ONE`, with normal and doubled bets
/// merged.
#[derive(Debug, Clone, Copy)]
pub struct TableEVResult {
    pub ev: i128,
    pub ev_normal: i128,
    pub ev_double: i128,
    pub ev_surrender: i128,
    pub player_win_prob: u64,
    pub dealer_win_prob: u64,
    pub push_prob: u64,
    pub player_blackjack_prob: u64,
    pub dealer_blackjack_prob: u64,
    pub surrender_prob: u64,
}

/// Fixed-point unit of expected value: payouts are counted in thousandths of the
/// bet, so an EV of `x` units of the bet is held as `x * EV_ONE`.
pub const EV_ONE: i128 = 1_000_000_000_000_000_000_000;

} // verus!
