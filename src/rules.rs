//! The rules of play: which card wins a trick, what a trick is worth, which cards a
//! player may play, and the checks that reject a card or a pass.
use vstd::prelude::*;
use crate::cards::{Card, Hand, Move, PassDirection, Rank, Suit, has_suit, rank_index};

verus! {

/// Why a card or a pass is refused.
#[derive(Debug, Clone, Copy, PartialEq, Eq, Structural)]
pub enum CardFault {
    /// The card is not in the player's hand.
    NotOwned,
    /// The led suit was not followed although the player holds it.
    MustFollowSuit,
    /// The first trick of a round must be led with the two of clubs.
    MustLeadTwoOfClubs,
    /// Hearts were led before any heart was played, from a hand with other suits.
    HeartsNotBroken,
    /// A card with points was played on the first trick from a hand with a card without.
    PointsOnFirstTrick,
    /// Cards were passed in a round without passing.
    NoPassThisRound,
    /// Not exactly three cards were passed.
    WrongPassCount,
    /// A passed card is not in the player's hand.
    PassNotOwned,
    /// The same card was passed twice.
    DuplicatePass,
}

/// The error a game ends with when a player breaks a rule.
#[derive(Debug, Clone, Copy, PartialEq, Eq, Structural)]
pub enum HJError {
    InvalidCardError(CardFault),
}

/// Sum of the points of `s`.
pub open spec fn points_of(s: Seq<Card>) -> int
    decreases s.len(),
{
    if s.len() == 0 {
        0
    } else {
        points_of(s.drop_last()) + s.last().points()
    }
}

/// Sum of the points of the cards in `moves`.
pub open spec fn trick_points(moves: Seq<Move>) -> int
    decreases moves.len(),
{
    if moves.len() == 0 {
        0
    } else {
        trick_points(moves.drop_last()) + moves.last().1.points()
    }
}

/// Whether some card in `moves` carries points.
pub open spec fn any_points(moves: Seq<Move>) -> bool {
    exists|i: int| 0 <= i < moves.len() && (#[trigger] moves[i]).1.points() != 0
}

pub proof fn lemma_trick_points_bound(moves: Seq<Move>)
    ensures
        -10 * moves.len() <= trick_points(moves) <= 13 * moves.len(),
    decreases moves.len(),
{
    if moves.len() > 0 {
        lemma_trick_points_bound(moves.drop_last());
    }
}

/// The points of the cards in `moves`.
pub fn trick_score(moves: &Vec<Move>) -> (r: isize)
    requires
        moves@.len() <= 1_000_000,
    ensures
        r == trick_points(moves@),
{
    let mut sum: isize = 0;
    let mut i: usize = 0;
    while i < moves.len()
        invariant
            i <= moves@.len() <= 1_000_000,
            sum == trick_points(moves@.subrange(0, i as int)),
        decreases moves@.len() - i,
    {
        proof {
            let s = moves@.subrange(0, i as int + 1);
            assert(s.drop_last() == moves@.subrange(0, i as int));
            lemma_trick_points_bound(moves@.subrange(0, i as int));
        }
        sum = sum + moves[i].1.score();
        i = i + 1;
    }
    assert(moves@.subrange(0, moves@.len() as int) == moves@);
    sum
}

/// Whether some card in `moves` carries points.
pub fn trick_has_points(moves: &Vec<Move>) -> (r: bool)
    ensures
        r == any_points(moves@),
{
    let mut i: usize = 0;
    while i < moves.len()
        invariant
            i <= moves@.len(),
            forall|j: int| 0 <= j < i ==> (#[trigger] moves@[j]).1.points() == 0,
        decreases moves@.len() - i,
    {
        if moves[i].1.score() != 0 {
            return true;
        }
        i = i + 1;
    }
    false
}

/// Whether card `a` takes the lead from card `b`: same suit and a higher rank.
pub open spec fn beats(a: Card, b: Card) -> bool {
    a.1 == b.1 && rank_index(a.0) > rank_index(b.0)
}

/// Index of the move that leads after the first `n` moves of a trick.
pub open spec fn best_index(moves: Seq<Move>, n: int) -> int
    decreases n,
{
    if n <= 1 {
        0
    } else {
        let b = best_index(moves, n - 1);
        if beats(moves[n - 1].1, moves[b].1) {
            n - 1
        } else {
            b
        }
    }
}

/// The seat that wins the trick `moves`.
pub open spec fn trick_winner(moves: Seq<Move>) -> usize {
    moves[best_index(moves, moves.len() as int)].0
}

/// The leading move has the led suit, a rank no lower than any other card of the
/// led suit, and a rank above each card of the led suit before it.
pub proof fn lemma_best_index(moves: Seq<Move>, n: int)
    requires
        1 <= n <= moves.len(),
    ensures
        0 <= best_index(moves, n) < n,
        moves[best_index(moves, n)].1.1 == moves[0].1.1,
        forall|j: int|
            0 <= j < n && (#[trigger] moves[j]).1.1 == moves[0].1.1 ==> rank_index(moves[j].1.0)
                <= rank_index(moves[best_index(moves, n)].1.0),
        forall|j: int|
            0 <= j < best_index(moves, n) && (#[trigger] moves[j]).1.1 == moves[0].1.1
                ==> rank_index(moves[j].1.0) < rank_index(moves[best_index(moves, n)].1.0),
    decreases n,
{
    if n > 1 {
        lemma_best_index(moves, n - 1);
    }
}

/// The seat whose card wins the trick: the highest card of the suit led.
pub fn find_winner_pidx(played_moves: &Vec<Move>) -> (r: usize)
    requires
        played_moves@.len() >= 1,
    ensures
        r == trick_winner(played_moves@),
{
    let mut best: usize = 0;
    let mut i: usize = 1;
    while i < played_moves.len()
        invariant
            1 <= i <= played_moves@.len(),
            best == best_index(played_moves@, i as int),
            best < i,
        decreases played_moves@.len() - i,
    {
        let cur = played_moves[i].1;
        let top = played_moves[best].1;
        if cur.1 == top.1 && cur.0.to_index() > top.0.to_index() {
            best = i;
        }
        i = i + 1;
    }
    played_moves[best].0
}

/// Whether every card of `s` carries points.
pub open spec fn all_score(s: Seq<Card>) -> bool {
    forall|i: int| 0 <= i < s.len() ==> (#[trigger] s[i]).points() != 0
}

/// Whether every card of `s` is a heart.
pub open spec fn all_hearts_in(s: Seq<Card>) -> bool {
    forall|i: int| 0 <= i < s.len() ==> (#[trigger] s[i]).1 == Suit::Hearts
}

pub open spec fn two_of_clubs() -> Card {
    Card(Rank::Two, Suit::Clubs)
}

/// The first rule that playing `card` from `hand` breaks, with `trick` already on
/// the table; `None` if it breaks none.
pub open spec fn move_fault(
    hand: Seq<Card>,
    trick: Seq<Move>,
    card: Card,
    first_round: bool,
    hearts_played: bool,
) -> Option<CardFault> {
    if !hand.contains(card) {
        Some(CardFault::NotOwned)
    } else if trick.len() > 0 && card.1 != trick[0].1.1 && has_suit(hand, trick[0].1.1) {
        Some(CardFault::MustFollowSuit)
    } else if trick.len() == 0 && first_round && card != two_of_clubs() {
        Some(CardFault::MustLeadTwoOfClubs)
    } else if trick.len() == 0 && card.1 == Suit::Hearts && !hearts_played && !all_hearts_in(hand) {
        Some(CardFault::HeartsNotBroken)
    } else if first_round && card.points() != 0 && !all_score(hand) {
        Some(CardFault::PointsOnFirstTrick)
    } else {
        None
    }
}

/// The result that a check with the given fault gives.
pub open spec fn verdict(f: Option<CardFault>) -> Result<(), HJError> {
    match f {
        None => Ok(()),
        Some(fault) => Err(HJError::InvalidCardError(fault)),
    }
}

/// Checks a card against the rules of play.
pub fn check_move(
    hand: &Hand,
    trick: &Vec<Move>,
    card: Card,
    first_round: bool,
    hearts_played: bool,
) -> (r: Result<(), HJError>)
    ensures
        r == verdict(move_fault(hand@, trick@, card, first_round, hearts_played)),
{
    if !hand.any_match(card) {
        return Err(HJError::InvalidCardError(CardFault::NotOwned));
    }
    if trick.len() > 0 {
        let led = trick[0].1.1;
        if card.1 != led && hand.any_of_suit(led) {
            return Err(HJError::InvalidCardError(CardFault::MustFollowSuit));
        }
    } else {
        if first_round && card != Card(Rank::Two, Suit::Clubs) {
            return Err(HJError::InvalidCardError(CardFault::MustLeadTwoOfClubs));
        }
        if card.1 == Suit::Hearts && !hearts_played && !hand.all_hearts() {
            return Err(HJError::InvalidCardError(CardFault::HeartsNotBroken));
        }
    }
    if first_round && card.score() != 0 && !hand.all_have_score() {
        return Err(HJError::InvalidCardError(CardFault::PointsOnFirstTrick));
    }
    Ok(())
}

/// The first rule that passing `passed` from `hand` breaks.
pub open spec fn pass_fault(direction: PassDirection, passed: Seq<Card>, hand: Seq<Card>) -> Option<
    CardFault,
> {
    if direction == PassDirection::NoPass {
        if passed.len() != 0 {
            Some(CardFault::NoPassThisRound)
        } else {
            None
        }
    } else if passed.len() != 3 {
        Some(CardFault::WrongPassCount)
    } else if exists|i: int| 0 <= i < 3 && !hand.contains(#[trigger] passed[i]) {
        Some(CardFault::PassNotOwned)
    } else if passed[0] == passed[1] || passed[0] == passed[2] || passed[1] == passed[2] {
        Some(CardFault::DuplicatePass)
    } else {
        None
    }
}

/// Checks the cards a player hands on.
pub fn check_pass(direction: PassDirection, passed: &Vec<Card>, hand: &Hand) -> (r: Result<
    (),
    HJError,
>)
    ensures
        r == verdict(pass_fault(direction, passed@, hand@)),
{
    if direction == PassDirection::NoPass {
        if passed.len() != 0 {
            return Err(HJError::InvalidCardError(CardFault::NoPassThisRound));
        }
        return Ok(());
    }
    if passed.len() != 3 {
        return Err(HJError::InvalidCardError(CardFault::WrongPassCount));
    }
    let mut i: usize = 0;
    while i < 3
        invariant
            i <= 3,
            passed@.len() == 3,
            direction != PassDirection::NoPass,
            forall|j: int| 0 <= j < i ==> hand@.contains(#[trigger] passed@[j]),
        decreases 3 - i,
    {
        if !hand.any_match(passed[i]) {
            assert(!hand@.contains(passed@[i as int]));
            return Err(HJError::InvalidCardError(CardFault::PassNotOwned));
        }
        i = i + 1;
    }
    if passed[0] == passed[1] || passed[0] == passed[2] || passed[1] == passed[2] {
        return Err(HJError::InvalidCardError(CardFault::DuplicatePass));
    }
    Ok(())
}

/// The cards a player may choose from: the led suit if held; otherwise, on the
/// first trick, the cards without points if any; when leading, the two of clubs
/// on the first trick, else the cards other than hearts unless hearts were played
/// or none is left; in every other case the whole hand.
pub open spec fn allowed(hand: Seq<Card>, trick: Seq<Move>, first_round: bool, hearts_played: bool) -> Seq<
    Card,
> {
    if trick.len() > 0 {
        let led = trick[0].1.1;
        let same = hand.filter(suit_is(led));
        let plain = hand.filter(no_points());
        if same.len() > 0 {
            same
        } else if first_round && plain.len() > 0 {
            plain
        } else {
            hand
        }
    } else if first_round {
        seq![two_of_clubs()]
    } else {
        let no_hearts = hand.filter(not_hearts());
        if !hearts_played && no_hearts.len() > 0 {
            no_hearts
        } else {
            hand
        }
    }
}

pub open spec fn suit_is(suit: Suit) -> spec_fn(Card) -> bool {
    |c: Card| c.1 == suit
}

pub open spec fn not_hearts() -> spec_fn(Card) -> bool {
    |c: Card| c.1 != Suit::Hearts
}

pub open spec fn no_points() -> spec_fn(Card) -> bool {
    |c: Card| c.points() == 0
}

/// Every card a player may play comes from its hand, but for the two of clubs
/// that opens a round.
pub proof fn lemma_allowed_in_hand(hand: Seq<Card>, trick: Seq<Move>, first_round: bool, hearts_played: bool, i: int)
    requires
        0 <= i < allowed(hand, trick, first_round, hearts_played).len(),
    ensures
        hand.contains(allowed(hand, trick, first_round, hearts_played)[i]) || allowed(
            hand,
            trick,
            first_round,
            hearts_played,
        )[i] == two_of_clubs(),
{
    let a = allowed(hand, trick, first_round, hearts_played);
    let c = a[i];
    assert(a.contains(c));
    if trick.len() > 0 {
        let led = trick[0].1.1;
        if hand.filter(suit_is(led)).len() > 0 {
            hand.lemma_filter_contains_rev(suit_is(led), c);
        } else if first_round && hand.filter(no_points()).len() > 0 {
            hand.lemma_filter_contains_rev(no_points(), c);
        }
    } else if !first_round {
        if !hearts_played && hand.filter(not_hearts()).len() > 0 {
            hand.lemma_filter_contains_rev(not_hearts(), c);
        }
    }
}

/// The cards of `cards` of suit `suit`, in order.
pub fn cards_of_suit(cards: &Vec<Card>, suit: Suit) -> (r: Vec<Card>)
    ensures
        r@ == cards@.filter(suit_is(suit)),
{
        let mut out: Vec<Card> = Vec::new();
    let mut i: usize = 0;
    while i < cards.len()
        invariant
            i <= cards@.len(),
            out@ == cards@.subrange(0, i as int).filter(suit_is(suit)),
        decreases cards@.len() - i,
    {
        proof {
            lemma_filter_step(cards@, i as int, suit_is(suit));
            assert(suit_is(suit)(cards@[i as int]) == (cards@[i as int].1 == suit));
        }
        if cards[i].1 == suit {
            out.push(cards[i]);
        }
        i = i + 1;
    }
    assert(cards@.subrange(0, cards@.len() as int) == cards@);
    out
}

/// The cards of `cards` other than hearts, in order.
pub fn cards_without_hearts(cards: &Vec<Card>) -> (r: Vec<Card>)
    ensures
        r@ == cards@.filter(not_hearts()),
{
        let mut out: Vec<Card> = Vec::new();
    let mut i: usize = 0;
    while i < cards.len()
        invariant
            i <= cards@.len(),
            out@ == cards@.subrange(0, i as int).filter(not_hearts()),
        decreases cards@.len() - i,
    {
        proof {
            lemma_filter_step(cards@, i as int, not_hearts());
            assert(not_hearts()(cards@[i as int]) == (cards@[i as int].1 != Suit::Hearts));
        }
        if cards[i].1 != Suit::Hearts {
            out.push(cards[i]);
        }
        i = i + 1;
    }
    assert(cards@.subrange(0, cards@.len() as int) == cards@);
    out
}

/// The cards of `cards` without points, in order.
pub fn cards_without_points(cards: &Vec<Card>) -> (r: Vec<Card>)
    ensures
        r@ == cards@.filter(no_points()),
{
        let mut out: Vec<Card> = Vec::new();
    let mut i: usize = 0;
    while i < cards.len()
        invariant
            i <= cards@.len(),
            out@ == cards@.subrange(0, i as int).filter(no_points()),
        decreases cards@.len() - i,
    {
        proof {
            lemma_filter_step(cards@, i as int, no_points());
            assert(no_points()(cards@[i as int]) == (cards@[i as int].points() == 0));
        }
        if cards[i].score() == 0 {
            out.push(cards[i]);
        }
        i = i + 1;
    }
    assert(cards@.subrange(0, cards@.len() as int) == cards@);
    out
}

/// Filtering one more element of a prefix.
pub proof fn lemma_filter_step<A>(s: Seq<A>, i: int, pred: spec_fn(A) -> bool)
    requires
        0 <= i < s.len(),
    ensures
        s.subrange(0, i + 1).filter(pred) == if pred(s[i]) {
            s.subrange(0, i).filter(pred).push(s[i])
        } else {
            s.subrange(0, i).filter(pred)
        },
{
    assert(s.subrange(0, i + 1) == s.subrange(0, i) + seq![s[i]]);
    Seq::filter_distributes_over_add(s.subrange(0, i), seq![s[i]], pred);
    reveal_with_fuel(Seq::filter, 2);
    assert(seq![s[i]].drop_last() == Seq::<A>::empty());
}

/// The cards that the player holding `hand` may play onto `trick`.
pub fn allowed_cards(hand: &Vec<Card>, trick: &Vec<Move>, first_round: bool, hearts_played: bool) -> (r:
    Vec<Card>)
    ensures
        r@ == allowed(hand@, trick@, first_round, hearts_played),
{
    if trick.len() > 0 {
        let same = cards_of_suit(hand, trick[0].1.1);
        if same.len() > 0 {
            same
        } else {
            let plain = cards_without_points(hand);
            if first_round && plain.len() > 0 {
                plain
            } else {
                hand.clone()
            }
        }
    } else if first_round {
        vec![Card(Rank::Two, Suit::Clubs)]
    } else {
        let no_hearts = cards_without_hearts(hand);
        if !hearts_played && no_hearts.len() > 0 {
            no_hearts
        } else {
            hand.clone()
        }
    }
}

/// A held card is in a filter of the hand exactly when it passes the filter.
pub proof fn lemma_filter_member(s: Seq<Card>, p: spec_fn(Card) -> bool, x: Card)
    requires
        s.contains(x),
    ensures
        s.filter(p).contains(x) <==> p(x),
{
    let i = choose|i: int| 0 <= i < s.len() && s[i] == x;
    if p(x) {
        s.lemma_filter_contains(p, i);
    }
    if s.filter(p).contains(x) {
        let j = choose|j: int| 0 <= j < s.filter(p).len() && s.filter(p)[j] == x;
        s.lemma_filter_pred(p, j);
    }
}

/// A filter of the hand is empty exactly when no card passes it.
pub proof fn lemma_filter_empty(s: Seq<Card>, p: spec_fn(Card) -> bool)
    ensures
        s.filter(p).len() == 0 <==> forall|i: int| 0 <= i < s.len() ==> !p(#[trigger] s[i]),
{
    if s.filter(p).len() > 0 {
        s.lemma_filter_pred(p, 0);
        s.lemma_filter_contains_rev(p, s.filter(p)[0]);
        let i = choose|i: int| 0 <= i < s.len() && s[i] == s.filter(p)[0];
        assert(p(s[i]));
    } else {
        assert forall|i: int| 0 <= i < s.len() implies !p(#[trigger] s[i]) by {
            if p(s[i]) {
                s.lemma_filter_contains(p, i);
            }
        }
    }
}

/// When a first trick is led with the two of clubs, a held card may be played
/// (it is among `allowed`) exactly when it breaks no rule.
pub proof fn lemma_allowed_is_legal(hand: Seq<Card>, trick: Seq<Move>, first_round: bool, hearts_played: bool, c: Card)
    requires
        hand.contains(c),
        first_round && trick.len() > 0 ==> trick[0].1 == two_of_clubs(),
    ensures
        allowed(hand, trick, first_round, hearts_played).contains(c) <==> move_fault(
            hand,
            trick,
            c,
            first_round,
            hearts_played,
        ) is None,
{
    if trick.len() > 0 {
        let led = trick[0].1.1;
        lemma_filter_member(hand, suit_is(led), c);
        lemma_filter_member(hand, no_points(), c);
        lemma_filter_empty(hand, suit_is(led));
        lemma_filter_empty(hand, no_points());
        if has_suit(hand, led) {
            let i = choose|i: int| 0 <= i < hand.len() && (#[trigger] hand[i]).1 == led;
            assert(suit_is(led)(hand[i]));
        }
        if hand.filter(suit_is(led)).len() > 0 {
            let i = choose|i: int| 0 <= i < hand.len() && suit_is(led)(#[trigger] hand[i]);
            assert(hand[i].1 == led);
        }
        if !all_score(hand) {
            let i = choose|i: int| 0 <= i < hand.len() && (#[trigger] hand[i]).points() == 0;
            assert(no_points()(hand[i]));
        }
        if hand.filter(no_points()).len() > 0 {
            let i = choose|i: int| 0 <= i < hand.len() && no_points()(#[trigger] hand[i]);
            assert(hand[i].points() == 0);
        }
        if first_round && c.1 == led {
            assert(led == Suit::Clubs);
            assert(c.points() == 0);
        }
    } else if first_round {
        let a = seq![two_of_clubs()];
        assert(a[0] == two_of_clubs());
        if c == two_of_clubs() {
            assert(a.contains(c));
        }
    } else {
        lemma_filter_member(hand, not_hearts(), c);
        lemma_filter_empty(hand, not_hearts());
        if !all_hearts_in(hand) {
            let i = choose|i: int| 0 <= i < hand.len() && (#[trigger] hand[i]).1 != Suit::Hearts;
            assert(not_hearts()(hand[i]));
        }
        if hand.filter(not_hearts()).len() > 0 {
            let i = choose|i: int| 0 <= i < hand.len() && not_hearts()(#[trigger] hand[i]);
            assert(hand[i].1 != Suit::Hearts);
        }
    }
}

} // verus!
