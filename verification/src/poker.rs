//! Hand categories, hands, the deck and the pool of visible cards.

use crate::adapters::cartesian_product;
use crate::adapters::combinations;
use crate::adapters::combinations_of;
use crate::adapters::product;
use crate::adapters::shuffle;
use crate::adapters::views_of;
use crate::card::Card;
use crate::card::LineNumber;
use crate::card::Rank;
use crate::card::Suit;
use crate::combinatorics::falling_factorial;
use crate::completion::is_addition;
use crate::completion::lemma_option_completes;
use crate::completion::lemma_rank_option_completes;
use crate::needed::absent_from;
use crate::needed::joined;
use crate::needed::lemma_held_grows;
use crate::needed::lemma_missing;
use crate::needed::lemma_option_size;
use crate::needed::lemma_options_when_held;
use crate::needed::missing_of_rank;
use crate::needed::needed_for_rank;
use crate::needed::needed_sets;
use crate::needed::options;
use crate::needed::options_for_rank;
use crate::needed::run_options;
use crate::needed::shortfall;
use vstd::prelude::*;
use vstd::string::StringExecFns;

verus! {

/// Why an operation of this module was refused. Each variant carries a
/// message for the user.
#[derive(Debug)]
pub enum PokerError {
    /// More cards were asked of a deck than it holds.
    NotEnoughCards(String),
    /// A category was asked for with ranks that cannot form it.
    InvalidArguments(String),
}

impl Clone for PokerError {
    fn clone(&self) -> (copy: Self)
        ensures
            copy == *self,
    {
        match self {
            PokerError::NotEnoughCards(text) => PokerError::NotEnoughCards(text.clone()),
            PokerError::InvalidArguments(text) => PokerError::InvalidArguments(text.clone()),
        }
    }
}

/// How many pairs of ranks have both ranks among the lowest `n` and the
/// higher rank first: 0 + 1 + ... + (n - 1).
pub open spec fn pairs_below(n: int) -> int
    decreases n,
{
    if n <= 0 {
        0
    } else {
        pairs_below(n - 1) + (n - 1)
    }
}

/// Two pairs of different ranks. The higher rank is always held in `top_rank`.
#[derive(Clone, Copy, Debug, PartialEq, Eq, Ord, Hash, Structural)]
pub struct TwoPair {
    top_rank: Rank,
    bottom_rank: Rank,
}

impl TwoPair {
    /// The rank of the higher pair.
    pub closed spec fn top(self) -> Rank {
        self.top_rank
    }

    /// The rank of the lower pair.
    pub closed spec fn bottom(self) -> Rank {
        self.bottom_rank
    }

    /// A value is well formed when its top rank is above its bottom rank.
    #[verifier::type_invariant]
    pub closed spec fn wf(self) -> bool {
        self.top_rank.value() > self.bottom_rank.value()
    }

    /// The two pairs of ranks `a` and `b`, whichever way round they are given.
    pub closed spec fn canonical(a: Rank, b: Rank) -> TwoPair {
        if a.value() > b.value() {
            TwoPair { top_rank: a, bottom_rank: b }
        } else {
            TwoPair { top_rank: b, bottom_rank: a }
        }
    }

    /// Whether a pair of ranks is listed: those whose first rank is the higher.
    pub open spec fn listed() -> spec_fn((Rank, Rank)) -> bool {
        |p: (Rank, Rank)| p.0.value() > p.1.value()
    }

    /// The two pairs that a pair of ranks stands for.
    pub open spec fn of_pair() -> spec_fn((Rank, Rank)) -> TwoPair {
        |p: (Rank, Rank)| TwoPair::canonical(p.0, p.1)
    }

    /// What the first `k` pairs of ranks, taken in the order of `product`,
    /// contribute to the list of all values.
    pub open spec fn universe_prefix(k: int) -> Seq<TwoPair> {
        product(Rank::universe(), Rank::universe()).take(k).filter(Self::listed()).map_values(
            Self::of_pair(),
        )
    }

    /// Every well-formed value once, ordered by top rank and then by bottom rank.
    pub open spec fn universe() -> Seq<TwoPair> {
        Self::universe_prefix(169)
    }

    /// The place of a value in the order by top rank, then bottom rank.
    pub open spec fn key(self) -> int {
        13 * (self.top().value() - 2) + (self.bottom().value() - 2)
    }

    /// Two pairs of the given ranks, in either order. Equal ranks are refused.
    pub fn new(top_rank: Rank, bottom_rank: Rank) -> (made: Result<Self, PokerError>)
        ensures
            match made {
                Ok(two_pair) => {
                    &&& top_rank != bottom_rank
                    &&& two_pair == TwoPair::canonical(top_rank, bottom_rank)
                    &&& two_pair.wf()
                    &&& two_pair.top() == if top_rank.value() > bottom_rank.value() {
                        top_rank
                    } else {
                        bottom_rank
                    }
                    &&& two_pair.bottom() == if top_rank.value() > bottom_rank.value() {
                        bottom_rank
                    } else {
                        top_rank
                    }
                },
                Err(error) => {
                    &&& top_rank == bottom_rank
                    &&& error matches PokerError::InvalidArguments(text)
                    &&& text@ == "Top rank and bottom rank cannot be equal."@
                },
            },
    {
        if top_rank > bottom_rank {
            Ok(Self { top_rank, bottom_rank })
        } else if top_rank < bottom_rank {
            Ok(Self { top_rank: bottom_rank, bottom_rank: top_rank })
        } else {
            proof {
                crate::card::lemma_rank_values(top_rank, bottom_rank);
            }
            Err(
                PokerError::InvalidArguments(
                    "Top rank and bottom rank cannot be equal.".to_owned(),
                ),
            )
        }
    }

    /// The rank of the higher pair.
    pub fn get_top_rank(self) -> (rank: Rank)
        ensures
            rank == self.top(),
    {
        self.top_rank
    }

    /// The rank of the lower pair.
    pub fn get_bottom_rank(self) -> (rank: Rank)
        ensures
            rank == self.bottom(),
    {
        self.bottom_rank
    }

    /// Every possible value: one for each of the 78 choices of two ranks.
    pub fn all_possible() -> (all: Vec<Self>)
        ensures
            all@ == Self::universe(),
            all@.len() == 78,
            all@.no_duplicates(),
            forall|i: int| 0 <= i < all@.len() ==> (#[trigger] all@[i]).wf(),
            forall|i: int, j: int| 0 <= i < j < all@.len() ==> all@[i].key() < all@[j].key(),
            forall|tp: TwoPair| tp.wf() ==> all@.contains(tp),
    {
        let ranks = Rank::all();
        let pairs = cartesian_product(&ranks, &ranks);
        let mut all: Vec<Self> = Vec::new();
        let mut k: usize = 0;
        proof {
            let n = Rank::universe().len();
            assert(n * n == 169) by (nonlinear_arith)
                requires
                    n == 13,
            ;
            assert(pairs@.take(0) =~= Seq::<(Rank, Rank)>::empty());
            reveal(Seq::filter);
        }
        while k < pairs.len()
            invariant
                pairs@ == product(Rank::universe(), Rank::universe()),
                pairs@.len() == 169,
                k <= 169,
                all@ == Self::universe_prefix(k as int),
                all@.len() == pairs_below(k as int / 13) + if k % 13 < k / 13 {
                    k as int % 13
                } else {
                    k as int / 13
                },
                forall|i: int| 0 <= i < all@.len() ==> (#[trigger] all@[i]).wf(),
                forall|i: int| 0 <= i < all@.len() ==> (#[trigger] all@[i]).key() < k,
                forall|i: int, j: int| 0 <= i < j < all@.len() ==> all@[i].key() < all@[j].key(),
            decreases pairs.len() - k,
        {
            let (top, bottom) = pairs[k];
            proof {
                let taken = pairs@.take(k as int);
                assert(pairs@.take(k + 1) =~= taken.push(pairs@[k as int]));
                taken.lemma_filter_push(pairs@[k as int], Self::listed());
                taken.filter(Self::listed()).lemma_push_map_commute(
                    Self::of_pair(),
                    pairs@[k as int],
                );
                crate::card::lemma_rank_values(top, bottom);
                assert(top == Rank::universe()[k as int / 13]);
                assert(bottom == Rank::universe()[k as int % 13]);
                reveal_with_fuel(pairs_below, 2);
            }
            if top > bottom {
                match Self::new(top, bottom) {
                    Ok(two_pair) => {
                        all.push(two_pair);
                    },
                    Err(_) => {},
                }
            }
            k += 1;
        }
        proof {
            assert(pairs_below(13) == 78) by {
                reveal_with_fuel(pairs_below, 14);
            }
            assert forall|tp: TwoPair| tp.wf() implies all@.contains(tp) by {
                Self::lemma_listed(tp);
            }
        }
        all
    }

    /// A well-formed value stands in `universe`.
    pub proof fn lemma_listed(tp: TwoPair)
        requires
            tp.wf(),
        ensures
            Self::universe().contains(tp),
    {
        let top = tp.top();
        let bottom = tp.bottom();
        crate::card::lemma_rank_values(top, bottom);
        let pairs = product(Rank::universe(), Rank::universe());
        let at = 13 * (top.value() - 2) + (bottom.value() - 2);
        assert(pairs[at] == (top, bottom));
        assert(pairs.take(169) =~= pairs);
        pairs.lemma_filter_contains(Self::listed(), at);
        let kept = pairs.filter(Self::listed());
        let i = choose|i: int| 0 <= i < kept.len() && kept[i] == (top, bottom);
        assert(kept.map_values(Self::of_pair())[i] == tp);
    }

    /// `canonical` puts the higher rank on top, so it gives the same value
    /// for a pair of different ranks and for the pair turned round.
    pub proof fn lemma_canonical(a: Rank, b: Rank)
        ensures
            a.value() > b.value() ==> Self::canonical(a, b).top() == a && Self::canonical(
                a,
                b,
            ).bottom() == b,
            a.value() <= b.value() ==> Self::canonical(a, b).top() == b && Self::canonical(
                a,
                b,
            ).bottom() == a,
            a != b ==> Self::canonical(a, b).wf(),
            a != b ==> Self::canonical(a, b) == Self::canonical(b, a),
    {
        crate::card::lemma_rank_values(a, b);
    }

    /// A value is determined by its two ranks, and being well formed means
    /// that the top rank is the higher one.
    pub proof fn lemma_determined(x: TwoPair, y: TwoPair)
        ensures
            x.wf() <==> x.top().value() > x.bottom().value(),
            x.top() == y.top() && x.bottom() == y.bottom() ==> x == y,
    {
    }
}

/// Three cards of one rank and two of another.
#[derive(Clone, Copy, Debug, PartialEq, Eq, Ord, Hash, Structural)]
pub struct FullHouse {
    triple: Rank,
    pair: Rank,
}

impl FullHouse {
    /// The rank of the three cards.
    pub closed spec fn triple_rank(self) -> Rank {
        self.triple
    }

    /// The rank of the two cards.
    pub closed spec fn pair_rank(self) -> Rank {
        self.pair
    }

    /// A value is well formed when its two ranks differ.
    #[verifier::type_invariant]
    pub closed spec fn wf(self) -> bool {
        self.triple != self.pair
    }

    /// The full house of `triple` over `pair`.
    pub closed spec fn of(triple: Rank, pair: Rank) -> FullHouse {
        FullHouse { triple, pair }
    }

    /// Whether a pair of ranks is listed: those of two different ranks.
    pub open spec fn listed() -> spec_fn((Rank, Rank)) -> bool {
        |p: (Rank, Rank)| p.0 != p.1
    }

    /// The full house that a pair of ranks stands for.
    pub open spec fn of_pair() -> spec_fn((Rank, Rank)) -> FullHouse {
        |p: (Rank, Rank)| FullHouse::of(p.0, p.1)
    }

    /// What the first `k` pairs of ranks, taken in the order of `product`,
    /// contribute to the list of all values.
    pub open spec fn universe_prefix(k: int) -> Seq<FullHouse> {
        product(Rank::universe(), Rank::universe()).take(k).filter(Self::listed()).map_values(
            Self::of_pair(),
        )
    }

    /// Every well-formed value once, ordered by the rank of the triple and
    /// then by the rank of the pair.
    pub open spec fn universe() -> Seq<FullHouse> {
        Self::universe_prefix(169)
    }

    /// The place of a value in the order by triple, then pair.
    pub open spec fn key(self) -> int {
        13 * (self.triple_rank().value() - 2) + (self.pair_rank().value() - 2)
    }

    /// The full house of `triple` over `pair`. Equal ranks are refused.
    pub fn new(triple: Rank, pair: Rank) -> (made: Result<Self, PokerError>)
        ensures
            match made {
                Ok(full_house) => {
                    &&& triple != pair
                    &&& full_house == FullHouse::of(triple, pair)
                    &&& full_house.wf()
                    &&& full_house.triple_rank() == triple
                    &&& full_house.pair_rank() == pair
                },
                Err(error) => {
                    &&& triple == pair
                    &&& error matches PokerError::InvalidArguments(text)
                    &&& text@ == "Top rank and bottom rank cannot be equal."@
                },
            },
    {
        if triple != pair {
            Ok(Self { triple, pair })
        } else {
            Err(
                PokerError::InvalidArguments(
                    "Top rank and bottom rank cannot be equal.".to_owned(),
                ),
            )
        }
    }

    /// The rank of the three cards.
    pub fn get_triple(self) -> (rank: Rank)
        ensures
            rank == self.triple_rank(),
    {
        self.triple
    }

    /// The rank of the two cards.
    pub fn get_pair(self) -> (rank: Rank)
        ensures
            rank == self.pair_rank(),
    {
        self.pair
    }

    /// Every possible value: one for each of the 156 ways to choose a rank
    /// for the triple and another for the pair.
    pub fn all_possible() -> (all: Vec<Self>)
        ensures
            all@ == Self::universe(),
            all@.len() == 156,
            all@.no_duplicates(),
            forall|i: int| 0 <= i < all@.len() ==> (#[trigger] all@[i]).wf(),
            forall|i: int, j: int| 0 <= i < j < all@.len() ==> all@[i].key() < all@[j].key(),
            forall|fh: FullHouse| fh.wf() ==> all@.contains(fh),
    {
        let ranks = Rank::all();
        let pairs = cartesian_product(&ranks, &ranks);
        let mut all: Vec<Self> = Vec::new();
        let mut k: usize = 0;
        proof {
            let n = Rank::universe().len();
            assert(n * n == 169) by (nonlinear_arith)
                requires
                    n == 13,
            ;
            assert(pairs@.take(0) =~= Seq::<(Rank, Rank)>::empty());
            reveal(Seq::filter);
        }
        while k < pairs.len()
            invariant
                pairs@ == product(Rank::universe(), Rank::universe()),
                pairs@.len() == 169,
                k <= 169,
                all@ == Self::universe_prefix(k as int),
                all@.len() == 12 * (k as int / 13) + k as int % 13 - if k % 13 > k / 13 {
                    1int
                } else {
                    0int
                },
                forall|i: int| 0 <= i < all@.len() ==> (#[trigger] all@[i]).wf(),
                forall|i: int| 0 <= i < all@.len() ==> (#[trigger] all@[i]).key() < k,
                forall|i: int, j: int| 0 <= i < j < all@.len() ==> all@[i].key() < all@[j].key(),
            decreases pairs.len() - k,
        {
            let (triple, pair) = pairs[k];
            proof {
                let taken = pairs@.take(k as int);
                assert(pairs@.take(k + 1) =~= taken.push(pairs@[k as int]));
                taken.lemma_filter_push(pairs@[k as int], Self::listed());
                taken.filter(Self::listed()).lemma_push_map_commute(
                    Self::of_pair(),
                    pairs@[k as int],
                );
                crate::card::lemma_rank_values(triple, pair);
                assert(triple == Rank::universe()[k as int / 13]);
                assert(pair == Rank::universe()[k as int % 13]);
            }
            match Self::new(triple, pair) {
                Ok(full_house) => {
                    all.push(full_house);
                },
                Err(_) => {},
            }
            k += 1;
        }
        proof {
            assert forall|fh: FullHouse| fh.wf() implies all@.contains(fh) by {
                Self::lemma_listed(fh);
            }
        }
        all
    }

    /// A well-formed value stands in `universe`.
    pub proof fn lemma_listed(fh: FullHouse)
        requires
            fh.wf(),
        ensures
            Self::universe().contains(fh),
    {
        let triple = fh.triple_rank();
        let pair = fh.pair_rank();
        crate::card::lemma_rank_values(triple, pair);
        let pairs = product(Rank::universe(), Rank::universe());
        let at = 13 * (triple.value() - 2) + (pair.value() - 2);
        assert(pairs[at] == (triple, pair));
        assert(pairs.take(169) =~= pairs);
        pairs.lemma_filter_contains(Self::listed(), at);
        let kept = pairs.filter(Self::listed());
        let i = choose|i: int| 0 <= i < kept.len() && kept[i] == (triple, pair);
        assert(kept.map_values(Self::of_pair())[i] == fh);
    }

    /// `of` keeps the two ranks apart, a value is determined by them, and
    /// being well formed means that they differ.
    pub proof fn lemma_determined(x: FullHouse, y: FullHouse, triple: Rank, pair: Rank)
        ensures
            Self::of(triple, pair).triple_rank() == triple,
            Self::of(triple, pair).pair_rank() == pair,
            x.wf() <==> x.triple_rank() != x.pair_rank(),
            x.triple_rank() == y.triple_rank() && x.pair_rank() == y.pair_rank() ==> x == y,
    {
    }
}

/// The category that a bet claims, with the rank or ranks that it names.
/// For a `Straight` the rank is the highest of its five ranks.
#[derive(Clone, Copy, Debug, PartialEq, Eq, Ord, Hash, Structural)]
pub enum HandValue {
    HighCard(Rank),
    OnePair(Rank),
    TwoPair(TwoPair),
    ThreeOfAKind(Rank),
    Straight(Rank),
    FullHouse(FullHouse),
    FourOfAKind(Rank),
}

impl HandValue {
    /// Every category with every choice of ranks, whether or not cards can
    /// form it: the high cards, the pairs, the two pairs, the threes, the
    /// straights, the full houses and the fours, each group in the order of
    /// its own list.
    pub open spec fn universe() -> Seq<HandValue> {
        Rank::universe().map_values(|r: Rank| HandValue::HighCard(r))
            + Rank::universe().map_values(|r: Rank| HandValue::OnePair(r))
            + TwoPair::universe().map_values(|tp: TwoPair| HandValue::TwoPair(tp))
            + Rank::universe().map_values(|r: Rank| HandValue::ThreeOfAKind(r))
            + Rank::universe().map_values(|r: Rank| HandValue::Straight(r))
            + FullHouse::universe().map_values(|fh: FullHouse| HandValue::FullHouse(fh))
            + Rank::universe().map_values(|r: Rank| HandValue::FourOfAKind(r))
    }

    /// Whether the ranks that the value names can stand together: always for
    /// a category of one rank, and otherwise when the composite is well formed.
    pub open spec fn wf(self) -> bool {
        match self {
            HandValue::TwoPair(tp) => tp.wf(),
            HandValue::FullHouse(fh) => fh.wf(),
            _ => true,
        }
    }

    /// All 299 values.
    pub fn all_possible() -> (all: Vec<Self>)
        ensures
            all@ == Self::universe(),
            all@.len() == 299,
            forall|i: int| 0 <= i < all@.len() ==> (#[trigger] all@[i]).wf(),
    {
        let ranks = Rank::all();
        let mut high: Vec<Self> = Vec::new();
        let mut one: Vec<Self> = Vec::new();
        let mut three: Vec<Self> = Vec::new();
        let mut straight: Vec<Self> = Vec::new();
        let mut four: Vec<Self> = Vec::new();
        let mut i: usize = 0;
        while i < ranks.len()
            invariant
                ranks@ == Rank::universe(),
                i <= 13,
                high@ == Rank::universe().take(i as int).map_values(
                    |r: Rank| HandValue::HighCard(r),
                ),
                one@ == Rank::universe().take(i as int).map_values(|r: Rank| HandValue::OnePair(r)),
                three@ == Rank::universe().take(i as int).map_values(
                    |r: Rank| HandValue::ThreeOfAKind(r),
                ),
                straight@ == Rank::universe().take(i as int).map_values(
                    |r: Rank| HandValue::Straight(r),
                ),
                four@ == Rank::universe().take(i as int).map_values(
                    |r: Rank| HandValue::FourOfAKind(r),
                ),
            decreases ranks.len() - i,
        {
            let rank = ranks[i];
            high.push(HandValue::HighCard(rank));
            one.push(HandValue::OnePair(rank));
            three.push(HandValue::ThreeOfAKind(rank));
            straight.push(HandValue::Straight(rank));
            four.push(HandValue::FourOfAKind(rank));
            i += 1;
        }
        let two_pairs = TwoPair::all_possible();
        let mut two: Vec<Self> = Vec::new();
        let mut j: usize = 0;
        while j < two_pairs.len()
            invariant
                j <= two_pairs@.len(),
                two@ == two_pairs@.take(j as int).map_values(|tp: TwoPair| HandValue::TwoPair(tp)),
            decreases two_pairs.len() - j,
        {
            two.push(HandValue::TwoPair(two_pairs[j]));
            j += 1;
        }
        let full_houses = FullHouse::all_possible();
        let mut full: Vec<Self> = Vec::new();
        let mut k: usize = 0;
        while k < full_houses.len()
            invariant
                k <= full_houses@.len(),
                full@ == full_houses@.take(k as int).map_values(
                    |fh: FullHouse| HandValue::FullHouse(fh),
                ),
            decreases full_houses.len() - k,
        {
            full.push(HandValue::FullHouse(full_houses[k]));
            k += 1;
        }
        proof {
            assert(Rank::universe().take(13) =~= Rank::universe());
            assert(two_pairs@.take(two_pairs@.len() as int) =~= two_pairs@);
            assert(full_houses@.take(full_houses@.len() as int) =~= full_houses@);
        }
        let mut all: Vec<Self> = Vec::new();
        all.append(&mut high);
        all.append(&mut one);
        all.append(&mut two);
        all.append(&mut three);
        all.append(&mut straight);
        all.append(&mut full);
        all.append(&mut four);
        all
    }
}

/// Cards held by one player.
#[derive(Debug)]
pub struct Hand {
    pub cards: Vec<Card>,
}

/// The cards of one or more hands pooled together, against which a bet is
/// settled.
#[derive(Debug)]
pub struct Commune {
    pub cards: Vec<Card>,
}

impl Clone for Hand {
    fn clone(&self) -> (copy: Self)
        ensures
            copy.cards@ == self.cards@,
    {
        Hand { cards: copy_of(&self.cards) }
    }
}

impl Clone for Commune {
    fn clone(&self) -> (copy: Self)
        ensures
            copy.cards@ == self.cards@,
    {
        Commune { cards: copy_of(&self.cards) }
    }
}

/// A copy of `cards`.
pub fn copy_of(cards: &Vec<Card>) -> (copy: Vec<Card>)
    ensures
        copy@ == cards@,
{
    let copy = cards.clone();
    assert(copy@ =~= cards@);
    copy
}

/// The cards that have not been dealt yet. No card stands in it twice, and
/// cards leave it from the end.
#[derive(Debug)]
pub struct Deck {
    cards: Vec<Card>,
}

impl Clone for Deck {
    fn clone(&self) -> (copy: Self)
        ensures
            copy@ == self@,
    {
        proof {
            use_type_invariant(self);
        }
        Self { cards: copy_of(&self.cards) }
    }
}

impl View for Deck {
    type V = Seq<Card>;

    closed spec fn view(&self) -> Seq<Card> {
        self.cards@
    }
}

impl Deck {
    /// No card stands in a deck twice.
    #[verifier::type_invariant]
    pub closed spec fn wf(self) -> bool {
        self.cards@.no_duplicates()
    }

    /// Being well formed is to hold no card twice.
    pub proof fn lemma_wf(self)
        ensures
            self.wf() <==> self@.no_duplicates(),
    {
    }

    /// The card that a suit and a rank make.
    pub open spec fn card_of() -> spec_fn((Suit, Rank)) -> Card {
        |p: (Suit, Rank)| Card { suit: p.0, rank: p.1 }
    }

    /// The 52 cards suit by suit, and within a suit from `Two` up to `Ace`.
    pub open spec fn standard() -> Seq<Card> {
        product(Suit::universe(), Rank::universe()).map_values(Self::card_of())
    }

    /// What dealing `num_cards` from `cards` leaves and hands out: the last
    /// `num_cards` cards go, in the order in which they lay. There is no
    /// outcome when more are asked for than there are.
    pub open spec fn split(cards: Seq<Card>, num_cards: nat) -> Option<(Seq<Card>, Seq<Card>)> {
        if num_cards > cards.len() {
            None
        } else {
            Some(
                (
                    cards.take(cards.len() - num_cards),
                    cards.subrange(cards.len() - num_cards, cards.len() as int),
                ),
            )
        }
    }

    /// A full deck of 52 cards in a random order.
    pub fn get_full_deck() -> (deck: Self)
        ensures
            deck@.to_multiset() == Self::standard().to_multiset(),
            deck@.len() == 52,
            deck@.no_duplicates(),
            forall|card: Card| deck@.contains(card),
    {
        let suits = Suit::all();
        let ranks = Rank::all();
        let pairs = cartesian_product(&suits, &ranks);
        let mut cards: Vec<Card> = Vec::new();
        let mut k: usize = 0;
        proof {
            let m = Suit::universe().len();
            let n = Rank::universe().len();
            assert(m * n == 52) by (nonlinear_arith)
                requires
                    m == 4,
                    n == 13,
            ;
        }
        while k < pairs.len()
            invariant
                pairs@ == product(Suit::universe(), Rank::universe()),
                pairs@.len() == 52,
                k <= 52,
                cards@ == pairs@.take(k as int).map_values(Self::card_of()),
            decreases pairs.len() - k,
        {
            let (suit, rank) = pairs[k];
            cards.push(Card { suit, rank });
            proof {
                assert(pairs@.take(k + 1) =~= pairs@.take(k as int).push(pairs@[k as int]));
            }
            k += 1;
        }
        proof {
            assert(pairs@.take(52) =~= pairs@);
            Self::lemma_standard();
        }
        let ghost ordered = cards@;
        let mut rng = rand::thread_rng();
        shuffle(&mut cards, &mut rng);
        proof {
            broadcast use vstd::seq_lib::to_multiset_len, vstd::seq_lib::to_multiset_contains;

            ordered.lemma_multiset_has_no_duplicates();
            cards@.lemma_multiset_has_no_duplicates_conv();
            assert(cards@.len() == cards@.to_multiset().len());
            assert(ordered.len() == ordered.to_multiset().len());
            assert forall|card: Card| cards@.contains(card) by {
                assert(ordered.contains(card));
                assert(ordered.to_multiset().count(card) > 0);
            }
        }
        Self { cards }
    }

    /// A deck of the given cards in the given order, for a caller who
    /// shuffles by other means or wants a known order. There is none where
    /// a card is given twice.
    pub fn from_cards(cards: Vec<Card>) -> (deck: Option<Self>)
        ensures
            match deck {
                Some(made) => made@ == cards@ && cards@.no_duplicates(),
                None => !cards@.no_duplicates(),
            },
    {
        let mut i: usize = 0;
        while i < cards.len()
            invariant
                i <= cards@.len(),
                forall|a: int, b: int| 0 <= a < b < i ==> cards@[a] != cards@[b],
            decreases cards.len() - i,
        {
            let mut j: usize = 0;
            while j < i
                invariant
                    j <= i < cards@.len(),
                    forall|a: int| 0 <= a < j ==> cards@[a] != cards@[i as int],
                decreases i - j,
            {
                if cards[j] == cards[i] {
                    return None;
                }
                j += 1;
            }
            i += 1;
        }
        Some(Self { cards })
    }

    /// The standard order holds each of the 52 cards once.
    pub proof fn lemma_standard()
        ensures
            Self::standard().len() == 52,
            Self::standard().no_duplicates(),
            forall|card: Card| Self::standard().contains(card),
    {
        let m = Suit::universe().len();
        let n = Rank::universe().len();
        assert(m * n == 52) by (nonlinear_arith)
            requires
                m == 4,
                n == 13,
        ;
        let all = Self::standard();
        assert forall|card: Card| all.contains(card) by {
            crate::card::lemma_rank_values(card.rank, card.rank);
            let row: int = match card.suit {
                Suit::Clubs => 0,
                Suit::Spades => 1,
                Suit::Hearts => 2,
                Suit::Diamonds => 3,
            };
            assert(all[13 * row + (card.rank.value() - 2)] == card);
        }
        assert forall|i: int, j: int| 0 <= i < all.len() && 0 <= j < all.len() && i != j implies all[i]
            != all[j] by {
            crate::card::lemma_rank_values(all[i].rank, all[j].rank);
        }
    }

    /// The number of cards in a full deck.
    pub fn full_deck_size() -> (size: usize)
        ensures
            size == 52,
    {
        52
    }

    /// The cards that are left, in the order in which they lie.
    pub fn cards(&self) -> (cards: &Vec<Card>)
        ensures
            cards@ == self@,
            cards@.no_duplicates(),
    {
        proof {
            use_type_invariant(self);
        }
        &self.cards
    }

    /// Takes the last `num_cards` cards off the deck and hands them out as a
    /// hand. Refuses, and leaves the deck as it is, when the deck holds
    /// fewer cards than that.
    pub fn deal_cards(&mut self, num_cards: usize) -> (dealt: Result<Hand, PokerError>)
        ensures
            match dealt {
                Ok(hand) => Self::split(old(self)@, num_cards as nat) == Some(
                    (final(self)@, hand.cards@),
                ),
                Err(error) => Self::split(old(self)@, num_cards as nat).is_none() && final(self)@
                    == old(self)@ && (error matches PokerError::NotEnoughCards(text) && text@
                    == "Tried to deal more cards than in deck."@),
            },
            dealt is Ok <==> num_cards <= old(self)@.len(),
            dealt matches Ok(hand) ==> hand.cards@.len() == num_cards && final(self)@.len() == old(
                self,
            )@.len() - num_cards && final(self)@ + hand.cards@ == old(self)@ && (final(self)@
                + hand.cards@).no_duplicates(),
            old(self)@.no_duplicates(),
            final(self)@.no_duplicates(),
    {
        proof {
            use_type_invariant(&*self);
            if num_cards <= self@.len() {
                Self::lemma_deal_partitions(self@, num_cards as nat);
            }
        }
        if num_cards > self.cards.len() {
            Err(PokerError::NotEnoughCards("Tried to deal more cards than in deck.".to_owned()))
        } else {
            let at = self.cards.len() - num_cards;
            let mut rest: Vec<Card> = Vec::new();
            std::mem::swap(&mut self.cards, &mut rest);
            let cards = rest.split_off(at);
            self.cards = rest;
            Ok(Hand { cards })
        }
    }

    /// Dealing splits the deck in two: the hand gets `num_cards` cards, the
    /// deck keeps the others, and the cards that are left, followed by the
    /// cards of the hand, are the cards of the deck before. Where the deck
    /// held no card twice, no card is in both parts nor twice in one.
    pub proof fn lemma_deal_partitions(cards: Seq<Card>, num_cards: nat)
        requires
            num_cards <= cards.len(),
        ensures
            Self::split(cards, num_cards) matches Some((left, hand)) && {
                &&& hand.len() == num_cards
                &&& left.len() == cards.len() - num_cards
                &&& left + hand == cards
                &&& left.to_multiset().add(hand.to_multiset()) == cards.to_multiset()
                &&& cards.no_duplicates() ==> left.no_duplicates() && hand.no_duplicates()
                    && forall|card: Card| !(left.contains(card) && hand.contains(card))
            },
    {
        let (left, hand) = Self::split(cards, num_cards).unwrap();
        assert(left + hand =~= cards);
        vstd::seq_lib::lemma_multiset_commutative(left, hand);
        if cards.no_duplicates() {
            assert forall|card: Card| !(left.contains(card) && hand.contains(card)) by {
                if left.contains(card) && hand.contains(card) {
                    let i = choose|i: int| 0 <= i < left.len() && left[i] == card;
                    let j = choose|j: int| 0 <= j < hand.len() && hand[j] == card;
                    assert(cards[i] == cards[left.len() + j]);
                }
            }
        }
    }

    /// A deal that asks for more than an earlier deal has left is refused:
    /// when two deals together ask for more cards than the deck holds, the
    /// second one has no outcome.
    pub proof fn lemma_second_deal_refused(cards: Seq<Card>, first: nat, second: nat)
        requires
            first <= cards.len(),
            first + second > cards.len(),
        ensures
            Self::split(cards, first) matches Some((left, hand)) && Self::split(left, second)
                is None,
    {
    }
}

/// 1 if `card` stands in `cards`, else 0.
pub open spec fn present(cards: Seq<Card>, card: Card) -> nat {
    if cards.contains(card) {
        1
    } else {
        0
    }
}

/// How many of the first `n` cards of `rank`, in the order of
/// `Card::all_with_rank`, stand in `cards`.
pub open spec fn held_among_first(cards: Seq<Card>, rank: Rank, n: int) -> nat {
    (if n > 0 {
        present(cards, Card { suit: Suit::Clubs, rank })
    } else {
        0
    }) + (if n > 1 {
        present(cards, Card { suit: Suit::Spades, rank })
    } else {
        0
    }) + (if n > 2 {
        present(cards, Card { suit: Suit::Hearts, rank })
    } else {
        0
    }) + (if n > 3 {
        present(cards, Card { suit: Suit::Diamonds, rank })
    } else {
        0
    })
}

/// How many of the four cards of `rank` stand in `cards`. A card that
/// stands there twice counts once.
pub open spec fn held_of_rank(cards: Seq<Card>, rank: Rank) -> nat {
    held_among_first(cards, rank, 4)
}

/// Whether `cards` satisfy `value`.
///
/// A category of one rank asks for one, two, three or four of the four
/// cards of that rank. Two pairs ask for two cards of each rank, a full
/// house for three of one and two of the other. A straight asks for a card
/// of each of the five ranks that end at its rank, and there is none below
/// `Six`: the ace does not count as low.
pub open spec fn holds(cards: Seq<Card>, value: HandValue) -> bool {
    match value {
        HandValue::HighCard(rank) => held_of_rank(cards, rank) >= 1,
        HandValue::OnePair(rank) => held_of_rank(cards, rank) >= 2,
        HandValue::TwoPair(two_pair) => held_of_rank(cards, two_pair.top()) >= 2 && held_of_rank(
            cards,
            two_pair.bottom(),
        ) >= 2,
        HandValue::ThreeOfAKind(rank) => held_of_rank(cards, rank) >= 3,
        HandValue::Straight(top) => top.value() >= 6 && forall|rank: Rank|
            top.value() - 4 <= rank.value() <= top.value() ==> #[trigger] held_of_rank(cards, rank)
                >= 1,
        HandValue::FullHouse(full_house) => held_of_rank(cards, full_house.triple_rank()) >= 3
            && held_of_rank(cards, full_house.pair_rank()) >= 2,
        HandValue::FourOfAKind(rank) => held_of_rank(cards, rank) >= 4,
    }
}

/// Whether `card` stands in `cards`.
pub fn contains_card(cards: &Vec<Card>, card: Card) -> (found: bool)
    ensures
        found == cards@.contains(card),
{
    let mut i: usize = 0;
    while i < cards.len()
        invariant
            i <= cards@.len(),
            forall|j: int| 0 <= j < i ==> cards@[j] != card,
        decreases cards.len() - i,
    {
        if cards[i] == card {
            return true;
        }
        i += 1;
    }
    false
}

/// One line of the drawing of `cards` side by side: the same line of each
/// card, each followed by a blank.
pub open spec fn row_text(cards: Seq<Card>, line: LineNumber) -> Seq<char>
    decreases cards.len(),
{
    if cards.len() == 0 {
        Seq::<char>::empty()
    } else {
        row_text(cards.drop_last(), line) + cards.last().line_text(line) + " "@
    }
}

/// The first `n` of the given rows of the drawing of `cards`, each ended by
/// a line break.
pub open spec fn rows_text(cards: Seq<Card>, lines: Seq<LineNumber>, n: int) -> Seq<char>
    decreases n,
{
    if n <= 0 {
        Seq::<char>::empty()
    } else {
        rows_text(cards, lines, n - 1) + row_text(cards, lines[n - 1]) + "\n"@
    }
}

/// The drawing of `cards` side by side: the five rows, each ended by a line
/// break.
pub open spec fn hand_text(cards: Seq<Card>) -> Seq<char> {
    row_text(cards, LineNumber::Zero) + "\n"@ + row_text(cards, LineNumber::One) + "\n"@
        + row_text(cards, LineNumber::Two) + "\n"@ + row_text(cards, LineNumber::Three) + "\n"@
        + row_text(cards, LineNumber::Four) + "\n"@
}

impl Hand {
    /// The drawing of the hand: its cards side by side.
    pub fn to_string(&self) -> (text: String)
        ensures
            text@ == hand_text(self.cards@),
    {
        let lines = LineNumber::lines();
        let mut output = "".to_owned();
        let mut i: usize = 0;
        proof {
            reveal_strlit("");
            assert(output@ =~= Seq::<char>::empty());
        }
        while i < 5
            invariant
                i <= 5,
                lines@ == seq![
                    LineNumber::Zero,
                    LineNumber::One,
                    LineNumber::Two,
                    LineNumber::Three,
                    LineNumber::Four,
                ],
                output@ == rows_text(self.cards@, lines@, i as int),
            decreases 5 - i,
        {
            let line = lines[i];
            let ghost before = output@;
            let mut j: usize = 0;
            proof {
                assert(self.cards@.take(0) =~= Seq::<Card>::empty());
                assert(output@ =~= before + row_text(self.cards@.take(0), line));
            }
            while j < self.cards.len()
                invariant
                    j <= self.cards@.len(),
                    output@ == before + row_text(self.cards@.take(j as int), line),
                decreases self.cards.len() - j,
            {
                output.append(self.cards[j].to_single_string(line).as_str());
                output.append(" ");
                proof {
                    let taken = self.cards@.take(j + 1);
                    assert(taken.drop_last() =~= self.cards@.take(j as int));
                    assert(taken.last() == self.cards@[j as int]);
                    assert(output@ =~= before + row_text(taken, line));
                }
                j += 1;
            }
            output.append("\n");
            proof {
                assert(self.cards@.take(self.cards@.len() as int) =~= self.cards@);
            }
            i += 1;
        }
        proof {
            reveal_with_fuel(rows_text, 6);
            assert(output@ =~= hand_text(self.cards@));
        }
        output
    }

    /// A hand without cards.
    pub fn empty_hand() -> (hand: Hand)
        ensures
            hand.cards@ == Seq::<Card>::empty(),
    {
        Hand { cards: Vec::new() }
    }

    /// The smallest sets of further cards of `rank` with which the hand
    /// holds at least `size` cards of that rank. Tries zero further cards,
    /// then one, and so on, and settles for the first number with which
    /// some pick of the missing cards is enough; the list is empty when the
    /// hand needs none, and when no number is enough.
    pub fn get_needed_cards_for_rank_hand(&self, size: u8, rank: Rank) -> (needed: Vec<Vec<Card>>)
        ensures
            views_of(needed@) == needed_for_rank(self.cards@, size as nat, rank),
            forall|i: int|
                0 <= i < needed@.len() ==> is_addition(self.cards@, (#[trigger] needed@[i])@)
                    && held_of_rank(self.cards@ + needed@[i]@, rank) >= size,
    {
        let mut needed_card_sets: Vec<Vec<Card>> = Vec::new();
        let all_cards_in_rank = Card::get_all_with_rank(rank);
        let mut rank_cards_not_in_hand: Vec<Card> = Vec::new();
        let mut j: usize = 0;
        proof {
            assert(all_cards_in_rank@.take(0) =~= Seq::<Card>::empty());
            reveal(Seq::filter);
        }
        while j < all_cards_in_rank.len()
            invariant
                all_cards_in_rank@ == Card::all_with_rank(rank),
                j <= 4,
                rank_cards_not_in_hand@ == all_cards_in_rank@.take(j as int).filter(
                    absent_from(self.cards@),
                ),
            decreases all_cards_in_rank.len() - j,
        {
            let card = all_cards_in_rank[j];
            proof {
                let before = all_cards_in_rank@.take(j as int);
                assert(all_cards_in_rank@.take(j + 1) =~= before.push(card));
                before.lemma_filter_push(card, absent_from(self.cards@));
            }
            if !contains_card(&self.cards, card) {
                rank_cards_not_in_hand.push(card);
            }
            j += 1;
        }
        let ghost held = held_of_rank(self.cards@, rank);
        proof {
            assert(all_cards_in_rank@.take(4) =~= all_cards_in_rank@);
            lemma_missing(self.cards@, rank);
            assert(views_of(needed_card_sets@) =~= Seq::<Seq<Card>>::empty());
        }
        let mut i: usize = 0;
        while i <= rank_cards_not_in_hand.len()
            invariant
                rank_cards_not_in_hand@ == missing_of_rank(self.cards@, rank),
                rank_cards_not_in_hand@.len() == 4 - held,
                held == held_of_rank(self.cards@, rank),
                i <= rank_cards_not_in_hand@.len() + 1,
                needed_card_sets@.len() == 0,
                i > 0 ==> held + i <= size,
            decreases rank_cards_not_in_hand.len() + 1 - i,
        {
            let combinations = combinations(&rank_cards_not_in_hand, i);
            let ghost picks = combinations_of(rank_cards_not_in_hand@, i as nat);
            let mut c: usize = 0;
            while c < combinations.len()
                invariant
                    rank_cards_not_in_hand@ == missing_of_rank(self.cards@, rank),
                    held == held_of_rank(self.cards@, rank),
                    views_of(combinations@) == picks,
                    picks == combinations_of(rank_cards_not_in_hand@, i as nat),
                    c <= combinations@.len(),
                    held + i >= size ==> views_of(needed_card_sets@) == picks.take(c as int),
                    held + i < size ==> needed_card_sets@.len() == 0,
                decreases combinations.len() - c,
            {
                let card_set = copy_of(&combinations[c]);
                let mut current_cards = copy_of(&self.cards);
                let mut added = copy_of(&card_set);
                current_cards.append(&mut added);
                let future_commune = Commune { cards: current_cards };
                proof {
                    assert(views_of(combinations@)[c as int] == card_set@);
                    crate::combinatorics::lemma_pick_is_selection(
                        rank_cards_not_in_hand@,
                        i as nat,
                        c as int,
                    );
                    lemma_missing(self.cards@, rank);
                    assert forall|at: int| 0 <= at < card_set@.len() implies (
                    #[trigger] card_set@[at]).rank == rank && !self.cards@.contains(card_set@[at]) by {
                        assert(picks[c as int].contains(card_set@[at]));
                        let from = choose|from: int|
                            0 <= from < rank_cards_not_in_hand@.len() && rank_cards_not_in_hand@[from]
                                == card_set@[at];
                        assert(missing_of_rank(self.cards@, rank)[from] == card_set@[at]);
                    }
                    lemma_held_grows(self.cards@, card_set@, rank);
                    assert(picks.take(c + 1) =~= picks.take(c as int).push(card_set@));
                    assert(views_of(needed_card_sets@.push(card_set)) =~= views_of(
                        needed_card_sets@,
                    ).push(card_set@));
                }
                if future_commune.contains_x_cards_of_rank(size, rank) {
                    needed_card_sets.push(card_set);
                }
                c += 1;
            }
            proof {
                assert(picks.take(picks.len() as int) =~= picks);
                if i <= rank_cards_not_in_hand@.len() {
                    crate::combinatorics::lemma_picks_exist(rank_cards_not_in_hand@, i as nat);
                }
            }
            if needed_card_sets.len() > 0 {
                if i == 0 {
                    let nothing: Vec<Vec<Card>> = Vec::new();
                    proof {
                        assert(views_of(nothing@) =~= Seq::<Seq<Card>>::empty());
                    }
                    return nothing;
                }
                proof {
                    assert forall|at: int| 0 <= at < needed_card_sets@.len() implies is_addition(
                        self.cards@,
                        (#[trigger] needed_card_sets@[at])@,
                    ) && held_of_rank(self.cards@ + needed_card_sets@[at]@, rank) >= size by {
                        assert(views_of(needed_card_sets@)[at] == needed_card_sets@[at]@);
                        lemma_rank_option_completes(self.cards@, size as nat, rank, at);
                    }
                }
                return needed_card_sets;
            }
            i += 1;
        }
        proof {
            assert(views_of(needed_card_sets@) =~= Seq::<Seq<Card>>::empty());
        }
        needed_card_sets
    }
}

/// The numbers from 0 up to `n`, `n` left out.
fn positions(n: usize) -> (all: Vec<usize>)
    ensures
        all@.len() == n,
        forall|i: int| 0 <= i < n ==> all@[i] == i,
{
    let mut all: Vec<usize> = Vec::new();
    let mut i: usize = 0;
    while i < n
        invariant
            i <= n,
            all@.len() == i,
            forall|j: int| 0 <= j < i ==> all@[j] == j,
        decreases n - i,
    {
        all.push(i);
        i += 1;
    }
    all
}

/// Every way to take one set of `first` together with one set of `second`.
fn join_options(first: &Vec<Vec<Card>>, second: &Vec<Vec<Card>>) -> (both: Vec<Vec<Card>>)
    ensures
        views_of(both@) == joined(views_of(first@), views_of(second@)),
{
    let rows = positions(first.len());
    let cols = positions(second.len());
    let pairs = cartesian_product(&rows, &cols);
    let ghost wanted = joined(views_of(first@), views_of(second@));
    let mut both: Vec<Vec<Card>> = Vec::new();
    let mut k: usize = 0;
    while k < pairs.len()
        invariant
            pairs@ == product(rows@, cols@),
            rows@.len() == first@.len(),
            cols@.len() == second@.len(),
            forall|i: int| 0 <= i < rows@.len() ==> rows@[i] == i,
            forall|i: int| 0 <= i < cols@.len() ==> cols@[i] == i,
            wanted == joined(views_of(first@), views_of(second@)),
            k <= pairs@.len(),
            both@.len() == k,
            forall|i: int| 0 <= i < k ==> (#[trigger] both@[i])@ == wanted[i],
        decreases pairs.len() - k,
    {
        proof {
            crate::combinatorics::lemma_product_index(
                k as int,
                rows@.len() as int,
                cols@.len() as int,
            );
        }
        let (i, j) = pairs[k];
        let mut set = copy_of(&first[i]);
        let mut more = copy_of(&second[j]);
        set.append(&mut more);
        both.push(set);
        k += 1;
    }
    proof {
        assert(views_of(both@) =~= wanted);
    }
    both
}

/// Whether `odds` are the odds of the ways to complete `hand` to `value`
/// when `in_play` further cards are in play: for each way of `options`, in
/// its order, the number of ways to draw its cards one after another from
/// the cards in play, and the number of ways to draw them from the cards
/// of a full deck that are not in the hand.
pub open spec fn are_odds_of(
    odds: Seq<(usize, usize)>,
    hand: Seq<Card>,
    value: HandValue,
    in_play: nat,
) -> bool {
    &&& odds.len() == options(hand, value).len()
    &&& forall|i: int|
        0 <= i < odds.len() ==> (#[trigger] odds[i]).0 == falling_factorial(
            in_play,
            options(hand, value)[i].len(),
        ) && odds[i].1 == falling_factorial(
            (52 - hand.len()) as nat,
            options(hand, value)[i].len(),
        )
}

/// Whether the odds of `value` can be counted for `hand` when `in_play`
/// further cards are in play: the hand has no more cards than a deck, and
/// the number of ways to draw, out of the cards in play, as many cards as
/// the hand is short of fits the machine's word.
pub open spec fn odds_are_countable(hand: Seq<Card>, value: HandValue, in_play: nat) -> bool {
    &&& hand.len() <= 52
    &&& options(hand, value).len() > 0 ==> falling_factorial(in_play, shortfall(hand, value))
        <= usize::MAX
}

/// In a game the odds can always be counted: with a hand of no more cards
/// than a deck has, and no more further cards in play than a deck has.
pub proof fn lemma_odds_are_countable(hand: Seq<Card>, value: HandValue, in_play: nat)
    requires
        hand.len() <= 52,
        in_play <= 52,
    ensures
        odds_are_countable(hand, value, in_play),
{
    if options(hand, value).len() > 0 {
        lemma_option_size(hand, value, 0);
        crate::combinatorics::lemma_draw_from_deck_fits(in_play, shortfall(hand, value));
    }
}

impl Hand {
    /// The number of ways to draw `k` of `n` cards one after another:
    /// `n * (n - 1) * ... * (n - k + 1)`, which is 0 when `k` is more than
    /// `n`. The number has to fit the machine's word.
    pub fn permutation(n: usize, k: usize) -> (count: usize)
        requires
            falling_factorial(n as nat, k as nat) <= usize::MAX,
        ensures
            count == falling_factorial(n as nat, k as nat),
    {
        if k > n {
            proof {
                crate::combinatorics::lemma_falling_zero(n as nat, k as nat);
            }
            return 0;
        }
        let mut count: usize = 1;
        let mut done: usize = n - k;
        while done < n
            invariant
                k <= n,
                n - k <= done <= n,
                count == falling_factorial(done as nat, (done - (n - k)) as nat),
                falling_factorial(n as nat, k as nat) <= usize::MAX,
            decreases n - done,
        {
            done += 1;
            proof {
                let drawn = (done - (n - k)) as nat;
                crate::combinatorics::lemma_falling_monotone(
                    done as nat,
                    n as nat,
                    (n - k + 1) as nat,
                );
                assert(falling_factorial(done as nat, drawn) == done * falling_factorial(
                    (done - 1) as nat,
                    (drawn - 1) as nat,
                ));
                assert(count * done == done * count) by (nonlinear_arith);
            }
            count = count * done;
        }
        count
    }

    /// `permutation(n, k)` where that number fits the machine's word, and
    /// nothing where it does not.
    pub fn checked_permutation(n: usize, k: usize) -> (count: Option<usize>)
        ensures
            match count {
                Some(fitting) => fitting == falling_factorial(n as nat, k as nat),
                None => falling_factorial(n as nat, k as nat) > usize::MAX,
            },
    {
        if k > n {
            proof {
                crate::combinatorics::lemma_falling_zero(n as nat, k as nat);
            }
            return Some(0);
        }
        let mut count: usize = 1;
        let mut done: usize = n - k;
        while done < n
            invariant
                k <= n,
                n - k <= done <= n,
                count == falling_factorial(done as nat, (done - (n - k)) as nat),
            decreases n - done,
        {
            done += 1;
            proof {
                let drawn = (done - (n - k)) as nat;
                crate::combinatorics::lemma_falling_monotone(
                    done as nat,
                    n as nat,
                    (n - k + 1) as nat,
                );
                assert(falling_factorial(done as nat, drawn) == done * falling_factorial(
                    (done - 1) as nat,
                    (drawn - 1) as nat,
                ));
                assert(count * done == done * count) by (nonlinear_arith);
            }
            match count.checked_mul(done) {
                Some(more) => {
                    count = more;
                },
                None => {
                    return None;
                },
            }
        }
        Some(count)
    }

    /// For each way to complete the hand to `hand_value`, in the order of
    /// `options`, two numbers: in how many ways the cards of that set can
    /// be drawn one after another from the `other_cards_in_play`, and in
    /// how many ways from all the cards of a full deck that are not in the
    /// hand. The first over the second is the chance that the set is among
    /// the cards in play.
    ///
    /// Where the hand satisfies the value already, the one way is to add
    /// nothing, and its two numbers are 1 and 1: that is certain. Where no
    /// cards can complete the hand there is no way and the list is empty.
    ///
    /// The hand must fit into a full deck, and the numbers must fit the
    /// machine's word: see `checked_draw_odds` for a caller who cannot tell.
    pub fn draw_odds(&self, hand_value: HandValue, other_cards_in_play: usize) -> (odds: Vec<
        (usize, usize),
    >)
        requires
            odds_are_countable(self.cards@, hand_value, other_cards_in_play as nat),
        ensures
            are_odds_of(odds@, self.cards@, hand_value, other_cards_in_play as nat),
    {
        self.checked_draw_odds(hand_value, other_cards_in_play).unwrap()
    }

    /// What `draw_odds` gives where the odds can be counted, and nothing
    /// where they cannot: where the hand has more cards than a deck, or a
    /// number does not fit the machine's word.
    pub fn checked_draw_odds(&self, hand_value: HandValue, other_cards_in_play: usize) -> (odds:
        Option<Vec<(usize, usize)>>)
        ensures
            match odds {
                Some(list) => {
                    &&& odds_are_countable(self.cards@, hand_value, other_cards_in_play as nat)
                    &&& are_odds_of(list@, self.cards@, hand_value, other_cards_in_play as nat)
                },
                None => !odds_are_countable(self.cards@, hand_value, other_cards_in_play as nat),
            },
    {
        if self.cards.len() > Deck::full_deck_size() {
            return None;
        }
        let total_cards = Deck::full_deck_size() - self.cards.len();
        let pool = Commune { cards: copy_of(&self.cards) };
        if pool.contains_hand_value(hand_value) {
            proof {
                lemma_options_when_held(self.cards@, hand_value);
                lemma_option_size(self.cards@, hand_value, 0);
            }
            let in_play = Self::permutation(other_cards_in_play, 0);
            let unseen = Self::permutation(total_cards, 0);
            return Some(vec![(in_play, unseen)]);
        }
        let needed_card_sets = self.get_needed_cards_for_hand_value(hand_value);
        let ghost sets = options(self.cards@, hand_value);
        let mut odds: Vec<(usize, usize)> = Vec::new();
        let mut i: usize = 0;
        while i < needed_card_sets.len()
            invariant
                views_of(needed_card_sets@) == sets,
                sets == options(self.cards@, hand_value),
                total_cards == 52 - self.cards@.len(),
                self.cards@.len() <= 52,
                i <= needed_card_sets@.len(),
                odds@.len() == i,
                i > 0 ==> odds_are_countable(
                    self.cards@,
                    hand_value,
                    other_cards_in_play as nat,
                ),
                forall|j: int|
                    0 <= j < i ==> (#[trigger] odds@[j]).0 == falling_factorial(
                        other_cards_in_play as nat,
                        sets[j].len(),
                    ) && odds@[j].1 == falling_factorial(total_cards as nat, sets[j].len()),
            decreases needed_card_sets.len() - i,
        {
            let size = needed_card_sets[i].len();
            proof {
                assert(views_of(needed_card_sets@)[i as int] == needed_card_sets@[i as int]@);
                lemma_option_size(self.cards@, hand_value, i as int);
                crate::combinatorics::lemma_draw_from_deck_fits(total_cards as nat, size as nat);
            }
            match Self::checked_permutation(other_cards_in_play, size) {
                Some(in_play) => {
                    let unseen = Self::permutation(total_cards, size);
                    odds.push((in_play, unseen));
                },
                None => {
                    return None;
                },
            }
            i += 1;
        }
        Some(odds)
    }

    /// The odds of every hand value: for each of the 299 values, in the
    /// order of `HandValue::all_possible`, the value and what `draw_odds`
    /// gives for it. There is nothing where the odds of one of the values
    /// cannot be counted.
    pub fn calculate_hand_value_odds(&self, other_cards_in_play: usize) -> (all: Option<
        Vec<(HandValue, Vec<(usize, usize)>)>,
    >)
        ensures
            match all {
                Some(list) => {
                    &&& list@.len() == 299
                    &&& forall|i: int|
                        0 <= i < 299 ==> (#[trigger] list@[i]).0 == HandValue::universe()[i]
                            && odds_are_countable(
                            self.cards@,
                            HandValue::universe()[i],
                            other_cards_in_play as nat,
                        ) && are_odds_of(
                            list@[i].1@,
                            self.cards@,
                            HandValue::universe()[i],
                            other_cards_in_play as nat,
                        )
                },
                None => exists|i: int|
                    0 <= i < 299 && !odds_are_countable(
                        self.cards@,
                        #[trigger] HandValue::universe()[i],
                        other_cards_in_play as nat,
                    ),
            },
    {
        let hand_values = HandValue::all_possible();
        let mut all: Vec<(HandValue, Vec<(usize, usize)>)> = Vec::new();
        let mut i: usize = 0;
        while i < hand_values.len()
            invariant
                hand_values@ == HandValue::universe(),
                hand_values@.len() == 299,
                i <= 299,
                all@.len() == i,
                forall|j: int|
                    0 <= j < i ==> (#[trigger] all@[j]).0 == HandValue::universe()[j]
                        && odds_are_countable(
                        self.cards@,
                        HandValue::universe()[j],
                        other_cards_in_play as nat,
                    ) && are_odds_of(
                        all@[j].1@,
                        self.cards@,
                        HandValue::universe()[j],
                        other_cards_in_play as nat,
                    ),
            decreases hand_values.len() - i,
        {
            let hand_value = hand_values[i];
            match self.checked_draw_odds(hand_value, other_cards_in_play) {
                Some(odds) => {
                    all.push((hand_value, odds));
                },
                None => {
                    return None;
                },
            }
            i += 1;
        }
        Some(all)
    }

    /// The ways to bring what the hand holds of `rank` up to `size`.
    fn rank_options(&self, size: u8, rank: Rank) -> (found: Vec<Vec<Card>>)
        requires
            1 <= size <= 4,
        ensures
            views_of(found@) == options_for_rank(self.cards@, size as nat, rank),
    {
        let needed = self.get_needed_cards_for_rank_hand(size, rank);
        proof {
            lemma_missing(self.cards@, rank);
            let held = held_of_rank(self.cards@, rank);
            if held < size {
                crate::combinatorics::lemma_picks_exist(
                    missing_of_rank(self.cards@, rank),
                    (size - held) as nat,
                );
            }
        }
        if needed.len() == 0 {
            let nothing: Vec<Card> = Vec::new();
            let found = vec![nothing];
            proof {
                assert(views_of(found@) =~= seq![Seq::<Card>::empty()]);
            }
            found
        } else {
            needed
        }
    }

    /// The smallest sets of further cards with which the hand satisfies
    /// `hand_value`. The list is empty when the hand satisfies the value
    /// already: a caller must not take an empty list for "impossible". It is
    /// empty, too, where no cards can complete the hand, as for a straight
    /// that ends below `Six`; `Commune::contains_hand_value` tells the two
    /// apart, and `draw_odds` does so for its caller.
    pub fn get_needed_cards_for_hand_value(&self, hand_value: HandValue) -> (needed: Vec<
        Vec<Card>,
    >)
        ensures
            views_of(needed@) == needed_sets(self.cards@, hand_value),
            forall|i: int|
                0 <= i < needed@.len() ==> is_addition(self.cards@, (#[trigger] needed@[i])@)
                    && holds(self.cards@ + needed@[i]@, hand_value),
    {
        proof {
            match hand_value {
                HandValue::TwoPair(two_pair) => {
                    use_type_invariant(&two_pair);
                },
                HandValue::FullHouse(full_house) => {
                    use_type_invariant(&full_house);
                },
                _ => {},
            }
        }
        let pool = Commune { cards: copy_of(&self.cards) };
        if pool.contains_hand_value(hand_value) {
            let nothing: Vec<Vec<Card>> = Vec::new();
            proof {
                assert(views_of(nothing@) =~= Seq::<Seq<Card>>::empty());
            }
            return nothing;
        }
        let needed = match hand_value {
            HandValue::HighCard(rank) => self.rank_options(1, rank),
            HandValue::OnePair(rank) => self.rank_options(2, rank),
            HandValue::TwoPair(two_pair) => {
                let top = self.rank_options(2, two_pair.get_top_rank());
                let bottom = self.rank_options(2, two_pair.get_bottom_rank());
                join_options(&top, &bottom)
            },
            HandValue::ThreeOfAKind(rank) => self.rank_options(3, rank),
            HandValue::Straight(top_rank) => {
                if top_rank < Rank::Six {
                    let nothing: Vec<Vec<Card>> = Vec::new();
                    proof {
                        assert(views_of(nothing@) =~= Seq::<Seq<Card>>::empty());
                    }
                    nothing
                } else {
                    self.straight_options(top_rank)
                }
            },
            HandValue::FullHouse(full_house) => {
                let triple = self.rank_options(3, full_house.get_triple());
                let pair = self.rank_options(2, full_house.get_pair());
                join_options(&triple, &pair)
            },
            HandValue::FourOfAKind(rank) => self.rank_options(4, rank),
        };
        proof {
            assert forall|i: int| 0 <= i < needed@.len() implies is_addition(
                self.cards@,
                (#[trigger] needed@[i])@,
            ) && holds(self.cards@ + needed@[i]@, hand_value) by {
                assert(views_of(needed@)[i] == needed@[i]@);
                lemma_option_completes(self.cards@, hand_value, i);
            }
        }
        needed
    }

    /// The ways to bring the hand to hold a card of each of the five ranks
    /// that end at `top_rank`.
    fn straight_options(&self, top_rank: Rank) -> (found: Vec<Vec<Card>>)
        requires
            top_rank.value() >= 6,
        ensures
            views_of(found@) == run_options(self.cards@, top_rank.value() - 4, 5),
    {
        let top_rank_index: usize = top_rank.to_u8() as usize;
        let all_ranks = Rank::all();
        let nothing: Vec<Card> = Vec::new();
        let mut found: Vec<Vec<Card>> = vec![nothing];
        proof {
            assert(views_of(found@) =~= seq![Seq::<Card>::empty()]);
        }
        let mut i: usize = top_rank_index - 6;
        while i < top_rank_index - 1
            invariant
                all_ranks@ == Rank::universe(),
                6 <= top_rank_index <= 14,
                top_rank_index == top_rank.value(),
                top_rank_index - 6 <= i <= top_rank_index - 1,
                views_of(found@) == run_options(
                    self.cards@,
                    top_rank.value() - 4,
                    (i - (top_rank_index - 6)) as nat,
                ),
            decreases top_rank_index - 1 - i,
        {
            let for_rank = self.rank_options(1, all_ranks[i]);
            found = join_options(&found, &for_rank);
            i += 1;
        }
        found
    }
}

impl Commune {
    /// Whether the pooled cards satisfy `value`.
    pub fn contains_hand_value(&self, value: HandValue) -> (found: bool)
        ensures
            found == holds(self.cards@, value),
    {
        match value {
            HandValue::FourOfAKind(rank) => self.contains_x_cards_of_rank(4, rank),
            HandValue::FullHouse(full_house) => {
                self.contains_x_cards_of_rank(3, full_house.get_triple())
                    && self.contains_x_cards_of_rank(2, full_house.get_pair())
            },
            HandValue::Straight(top_rank) => {
                if top_rank < Rank::Six {
                    false
                } else {
                    self.contains_straight(top_rank)
                }
            },
            HandValue::ThreeOfAKind(rank) => self.contains_x_cards_of_rank(3, rank),
            HandValue::TwoPair(two_pair) => {
                self.contains_x_cards_of_rank(2, two_pair.get_top_rank())
                    && self.contains_x_cards_of_rank(2, two_pair.get_bottom_rank())
            },
            HandValue::OnePair(rank) => self.contains_x_cards_of_rank(2, rank),
            HandValue::HighCard(rank) => self.contains_x_cards_of_rank(1, rank),
        }
    }

    /// Whether at least `x` of the four cards of `rank` are in the pool.
    pub fn contains_x_cards_of_rank(&self, x: u8, rank: Rank) -> (found: bool)
        ensures
            found == (held_of_rank(self.cards@, rank) >= x),
    {
        let needed_cards = Card::get_all_with_rank(rank);
        let mut num_cards: u8 = 0;
        let mut i: usize = 0;
        while i < needed_cards.len()
            invariant
                needed_cards@ == Card::all_with_rank(rank),
                i <= 4,
                num_cards == held_among_first(self.cards@, rank, i as int),
            decreases needed_cards.len() - i,
        {
            if contains_card(&self.cards, needed_cards[i]) {
                num_cards += 1;
            }
            i += 1;
        }
        num_cards >= x
    }

    /// Whether the pool holds a card of each of the five ranks that end at
    /// `top_rank`.
    fn contains_straight(&self, top_rank: Rank) -> (found: bool)
        requires
            top_rank.value() >= 6,
        ensures
            found == holds(self.cards@, HandValue::Straight(top_rank)),
    {
        let top_rank_index: usize = top_rank.to_u8() as usize;
        let all_ranks = Rank::all();
        let mut i: usize = top_rank_index - 6;
        while i < top_rank_index - 1
            invariant
                all_ranks@ == Rank::universe(),
                6 <= top_rank_index <= 14,
                top_rank_index == top_rank.value(),
                top_rank_index - 6 <= i <= top_rank_index - 1,
                forall|rank: Rank|
                    top_rank.value() - 4 <= rank.value() < i + 2 ==> #[trigger] held_of_rank(
                        self.cards@,
                        rank,
                    ) >= 1,
            decreases top_rank_index - 1 - i,
        {
            let rank = all_ranks[i];
            if !self.contains_x_cards_of_rank(1, rank) {
                return false;
            }
            proof {
                assert forall|other: Rank|
                    top_rank.value() - 4 <= other.value() < i + 3 implies #[trigger] held_of_rank(
                    self.cards@,
                    other,
                ) >= 1 by {
                    crate::card::lemma_rank_values(other, rank);
                }
            }
            i += 1;
        }
        true
    }
}

} // verus!
