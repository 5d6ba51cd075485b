//! Ranks, suits, cards, moves, hands and pass directions.
use vstd::prelude::*;

verus! {

/// The direction in which three cards are handed on before a round.
#[derive(Debug, Clone, Copy, PartialEq, Eq, Structural)]
pub enum PassDirection {
    Left,
    Right,
    Cross,
    NoPass,
}

/// One card played by one player: `(player index, card)`.
#[derive(Debug, Clone, Copy, PartialEq, Eq, Structural)]
pub struct Move(pub usize, pub Card);

/// The cards one player holds.
#[derive(Debug)]
pub struct Hand {
    pub cards: Vec<Card>,
}

#[derive(Debug, Clone, Copy, PartialEq, Eq, Structural, PartialOrd, Ord, Hash)]
pub struct Card(pub Rank, pub Suit);

#[derive(Debug, Clone, Copy, PartialEq, Eq, Structural, PartialOrd, Ord, Hash)]
pub enum Rank {
    Two,
    Three,
    Four,
    Five,
    Six,
    Seven,
    Eight,
    Nine,
    Ten,
    Jack,
    Queen,
    King,
    Ace,
}

#[derive(Debug, Clone, Copy, PartialEq, Eq, Structural, PartialOrd, Ord, Hash)]
pub enum Suit {
    Spades,
    Clubs,
    Diamonds,
    Hearts,
}

/// The pass direction used in round `num`: left, right, across, then none.
pub open spec fn pass_for_round(num: nat) -> PassDirection {
    if num % 4 == 0 {
        PassDirection::Left
    } else if num % 4 == 1 {
        PassDirection::Right
    } else if num % 4 == 2 {
        PassDirection::Cross
    } else {
        PassDirection::NoPass
    }
}

/// How many seats to the left a passed card travels.
pub open spec fn shift_of(d: PassDirection) -> nat {
    match d {
        PassDirection::NoPass => 0,
        PassDirection::Left => 1,
        PassDirection::Cross => 2,
        PassDirection::Right => 3,
    }
}

impl PassDirection {
    pub fn index_shift(&self) -> (r: usize)
        ensures
            r == shift_of(*self),
    {
        match self {
            PassDirection::NoPass => 0,
            PassDirection::Left => 1,
            PassDirection::Cross => 2,
            PassDirection::Right => 3,
        }
    }

    pub fn from_round(num: usize) -> (r: Self)
        ensures
            r == pass_for_round(num as nat),
    {
        let m: usize = num % 4;
        if m == 0 {
            PassDirection::Left
        } else if m == 1 {
            PassDirection::Right
        } else if m == 2 {
            PassDirection::Cross
        } else {
            PassDirection::NoPass
        }
    }
}

impl Move {
    pub fn pidx(&self) -> (r: usize)
        ensures
            r == self.0,
    {
        self.0
    }

    pub fn card(&self) -> (r: Card)
        ensures
            r == self.1,
    {
        self.1
    }
}

impl View for Hand {
    type V = Seq<Card>;

    open spec fn view(&self) -> Seq<Card> {
        self.cards@
    }
}

impl Clone for Hand {
    fn clone(&self) -> (r: Self)
        ensures
            r@ == self@,
    {
        Hand { cards: self.cards.clone() }
    }
}

impl Hand {
    pub fn new(cards: Vec<Card>) -> (r: Self)
        ensures
            r@ == cards@,
    {
        Self { cards }
    }

    pub fn cards(&self) -> (r: &Vec<Card>)
        ensures
            r@ == self@,
    {
        &self.cards
    }

    pub fn all_hearts(&self) -> (r: bool)
        ensures
            r == (forall|i: int| 0 <= i < self@.len() ==> (#[trigger] self@[i]).1 == Suit::Hearts),
    {
        let mut i: usize = 0;
        while i < self.cards.len()
            invariant
                i <= self@.len(),
                forall|j: int| 0 <= j < i ==> (#[trigger] self@[j]).1 == Suit::Hearts,
            decreases self@.len() - i,
        {
            if self.cards[i].1 != Suit::Hearts {
                return false;
            }
            i = i + 1;
        }
        true
    }

    pub fn all_have_score(&self) -> (r: bool)
        ensures
            r == (forall|i: int| 0 <= i < self@.len() ==> (#[trigger] self@[i]).points() != 0),
    {
        let mut i: usize = 0;
        while i < self.cards.len()
            invariant
                i <= self@.len(),
                forall|j: int| 0 <= j < i ==> (#[trigger] self@[j]).points() != 0,
            decreases self@.len() - i,
        {
            if self.cards[i].score() == 0 {
                return false;
            }
            i = i + 1;
        }
        true
    }

    pub fn any_of_suit(&self, suit: Suit) -> (r: bool)
        ensures
            r == has_suit(self@, suit),
    {
        let mut i: usize = 0;
        while i < self.cards.len()
            invariant
                i <= self@.len(),
                forall|j: int| 0 <= j < i ==> (#[trigger] self@[j]).1 != suit,
            decreases self@.len() - i,
        {
            if self.cards[i].1 == suit {
                return true;
            }
            i = i + 1;
        }
        false
    }

    pub fn any_match(&self, card: Card) -> (r: bool)
        ensures
            r == self@.contains(card),
    {
        Self::contains_card(&self.cards, card)
    }

    /// Whether `cards` holds `card`.
    pub fn contains_card(cards: &Vec<Card>, card: Card) -> (r: bool)
        ensures
            r == cards@.contains(card),
    {
        let mut i: usize = 0;
        while i < cards.len()
            invariant
                i <= cards@.len(),
                forall|j: int| 0 <= j < i ==> cards@[j] != card,
            decreases cards@.len() - i,
        {
            if cards[i] == card {
                return true;
            }
            i = i + 1;
        }
        false
    }

    /// Takes every copy of `card` out of the hand, keeping the order of the rest.
    pub fn remove(&mut self, card: Card)
        ensures
            final(self)@ == without(old(self)@, card),
    {
        self.cards = remove_card(&self.cards, card);
    }

    pub fn add(&mut self, card: Card)
        ensures
            final(self)@ == old(self)@.push(card),
    {
        self.cards.push(card);
    }
}

/// Whether some card of `s` is of suit `suit`.
pub open spec fn has_suit(s: Seq<Card>, suit: Suit) -> bool {
    exists|i: int| 0 <= i < s.len() && (#[trigger] s[i]).1 == suit
}

/// `s` with every copy of `card` left out.
pub open spec fn without(s: Seq<Card>, card: Card) -> Seq<Card> {
    s.filter(other_than(card))
}

/// Whether a card is not `card`.
pub open spec fn other_than(card: Card) -> spec_fn(Card) -> bool {
    |c: Card| c != card
}

/// A copy of `cards` with every copy of `card` left out.
pub fn remove_card(cards: &Vec<Card>, card: Card) -> (r: Vec<Card>)
    ensures
        r@ == without(cards@, card),
{
    let mut out: Vec<Card> = Vec::new();
    let mut i: usize = 0;
    while i < cards.len()
        invariant
            i <= cards@.len(),
            out@ == without(cards@.subrange(0, i as int), card),
        decreases cards@.len() - i,
    {
        proof {
            let pred = other_than(card);
            assert(cards@.subrange(0, i as int + 1) == cards@.subrange(0, i as int).push(cards@[i as int]));
            cards@.subrange(0, i as int).filter_lemma(pred);
            Seq::filter_distributes_over_add(cards@.subrange(0, i as int), seq![cards@[i as int]], pred);
            assert(cards@.subrange(0, i as int).push(cards@[i as int]) == cards@.subrange(0, i as int) + seq![cards@[i as int]]);
            reveal_with_fuel(Seq::filter, 2);
        }
        if cards[i] != card {
            out.push(cards[i]);
        }
        i = i + 1;
    }
    assert(cards@.subrange(0, cards@.len() as int) == cards@);
    out
}

/// Position of a rank from Two (0) to Ace (12).
pub open spec fn rank_index(r: Rank) -> nat {
    match r {
        Rank::Two => 0,
        Rank::Three => 1,
        Rank::Four => 2,
        Rank::Five => 3,
        Rank::Six => 4,
        Rank::Seven => 5,
        Rank::Eight => 6,
        Rank::Nine => 7,
        Rank::Ten => 8,
        Rank::Jack => 9,
        Rank::Queen => 10,
        Rank::King => 11,
        Rank::Ace => 12,
    }
}

/// The rank at position `i` (Two for 0, up to Ace for 12).
pub open spec fn rank_at(i: int) -> Rank {
    if i <= 0 {
        Rank::Two
    } else if i == 1 {
        Rank::Three
    } else if i == 2 {
        Rank::Four
    } else if i == 3 {
        Rank::Five
    } else if i == 4 {
        Rank::Six
    } else if i == 5 {
        Rank::Seven
    } else if i == 6 {
        Rank::Eight
    } else if i == 7 {
        Rank::Nine
    } else if i == 8 {
        Rank::Ten
    } else if i == 9 {
        Rank::Jack
    } else if i == 10 {
        Rank::Queen
    } else if i == 11 {
        Rank::King
    } else {
        Rank::Ace
    }
}

/// Position of a suit: Spades, Clubs, Diamonds, Hearts.
pub open spec fn suit_index(s: Suit) -> nat {
    match s {
        Suit::Spades => 0,
        Suit::Clubs => 1,
        Suit::Diamonds => 2,
        Suit::Hearts => 3,
    }
}

pub open spec fn suit_at(i: int) -> Suit {
    if i <= 0 {
        Suit::Spades
    } else if i == 1 {
        Suit::Clubs
    } else if i == 2 {
        Suit::Diamonds
    } else {
        Suit::Hearts
    }
}

/// The 52 cards, suit by suit in suit order, each suit from Two to Ace.
pub open spec fn deck() -> Seq<Card> {
    Seq::new(52, |i: int| Card(rank_at(i % 13), suit_at(i / 13)))
}

impl Card {
    /// The points a card carries: a heart 1, the queen of spades 13, the jack of
    /// diamonds minus 10, any other card none.
    pub open spec fn points(self) -> int {
        if self.1 == Suit::Hearts {
            1
        } else if self == Card(Rank::Queen, Suit::Spades) {
            13
        } else if self == Card(Rank::Jack, Suit::Diamonds) {
            -10
        } else {
            0
        }
    }

    pub fn all() -> (r: Vec<Card>)
        ensures
            r@ == deck(),
    {
        let suits = Suit::all();
        let ranks = Rank::all();
        let mut out: Vec<Card> = Vec::new();
        let mut s: usize = 0;
        while s < 4
            invariant
                s <= 4,
                suits@ == seq![Suit::Spades, Suit::Clubs, Suit::Diamonds, Suit::Hearts],
                forall|i: int| 0 <= i < 13 ==> (#[trigger] ranks@[i]) == rank_at(i),
                out@ == deck().subrange(0, 13 * s as int),
            decreases 4 - s,
        {
            let mut k: usize = 0;
            while k < 13
                invariant
                    s < 4,
                    k <= 13,
                    suits@ == seq![Suit::Spades, Suit::Clubs, Suit::Diamonds, Suit::Hearts],
                    forall|i: int| 0 <= i < 13 ==> (#[trigger] ranks@[i]) == rank_at(i),
                    out@ == deck().subrange(0, 13 * s as int + k as int),
                decreases 13 - k,
            {
                let c = Card(ranks[k], suits[s]);
                proof {
                    let n = 13 * s as int + k as int;
                    assert(n % 13 == k as int && n / 13 == s as int) by (nonlinear_arith)
                        requires n == 13 * s as int + k as int, 0 <= k < 13, 0 <= s;
                    assert(deck()[n] == c);
                    assert(deck().subrange(0, n + 1) == deck().subrange(0, n).push(c));
                }
                out.push(c);
                k = k + 1;
            }
            s = s + 1;
        }
        assert(deck().subrange(0, 52) == deck());
        out
    }

    pub fn new(rank: Rank, suit: Suit) -> (r: Self)
        ensures
            r == Card(rank, suit),
    {
        Card(rank, suit)
    }

    pub fn rank(&self) -> (r: Rank)
        ensures
            r == self.0,
    {
        self.0
    }

    pub fn suit(&self) -> (r: Suit)
        ensures
            r == self.1,
    {
        self.1
    }

    pub fn score(self) -> (r: isize)
        ensures
            r == self.points(),
    {
        if self.1 == Suit::Hearts {
            1
        } else if self.0 == Rank::Queen && self.1 == Suit::Spades {
            13
        } else if self.0 == Rank::Jack && self.1 == Suit::Diamonds {
            -10
        } else {
            0
        }
    }
}

impl Rank {
    pub fn all() -> (r: [Rank; 13])
        ensures
            forall|i: int| 0 <= i < 13 ==> (#[trigger] r@[i]) == rank_at(i),
    {
        [
            Rank::Two,
            Rank::Three,
            Rank::Four,
            Rank::Five,
            Rank::Six,
            Rank::Seven,
            Rank::Eight,
            Rank::Nine,
            Rank::Ten,
            Rank::Jack,
            Rank::Queen,
            Rank::King,
            Rank::Ace,
        ]
    }

    pub fn to_index(&self) -> (r: usize)
        ensures
            r == rank_index(*self),
            r < 13,
    {
        match self {
            Rank::Two => 0,
            Rank::Three => 1,
            Rank::Four => 2,
            Rank::Five => 3,
            Rank::Six => 4,
            Rank::Seven => 5,
            Rank::Eight => 6,
            Rank::Nine => 7,
            Rank::Ten => 8,
            Rank::Jack => 9,
            Rank::Queen => 10,
            Rank::King => 11,
            Rank::Ace => 12,
        }
    }

    pub fn from_index(idx: u8) -> (r: Self)
        requires
            idx < 13,
        ensures
            r == rank_at(idx as int),
            rank_index(r) == idx,
    {
        if idx == 0 {
            Rank::Two
        } else if idx == 1 {
            Rank::Three
        } else if idx == 2 {
            Rank::Four
        } else if idx == 3 {
            Rank::Five
        } else if idx == 4 {
            Rank::Six
        } else if idx == 5 {
            Rank::Seven
        } else if idx == 6 {
            Rank::Eight
        } else if idx == 7 {
            Rank::Nine
        } else if idx == 8 {
            Rank::Ten
        } else if idx == 9 {
            Rank::Jack
        } else if idx == 10 {
            Rank::Queen
        } else if idx == 11 {
            Rank::King
        } else {
            Rank::Ace
        }
    }
}

impl Suit {
    pub fn all() -> (r: [Suit; 4])
        ensures
            r@ == seq![Suit::Spades, Suit::Clubs, Suit::Diamonds, Suit::Hearts],
    {
        [Suit::Spades, Suit::Clubs, Suit::Diamonds, Suit::Hearts]
    }

    pub fn to_index(&self) -> (r: usize)
        ensures
            r == suit_index(*self),
            r < 4,
    {
        match self {
            Suit::Spades => 0,
            Suit::Clubs => 1,
            Suit::Diamonds => 2,
            Suit::Hearts => 3,
        }
    }
}

} // verus!
